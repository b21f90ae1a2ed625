//! The tokenizer: it reads Pajson source characters and produces tokens,
//! checking the statement grammar of the language on the way.
//!
//! Reading is lazy about layout: looking at the next character first drops a
//! comment that starts there (from '🙈' up to and including the end of its
//! line) and then any spaces. Each token records the location at which it
//! was pushed.

use vstd::prelude::*;
use crate::text::{decimal, push_char, push_decimal, push_str, string_of, Failure, FailureView};
use crate::scan::{ScanState, add_overflow_panic, mul_overflow_panic, err_at, lemma_assertion, lemma_cmp, lemma_comment_rest, lemma_eol, lemma_expect, lemma_expression, lemma_factor, lemma_gap, lemma_layout, lemma_print, lemma_skip_spaces, lemma_term, must_advance, sc_assertion, sc_at, sc_block, sc_check_comment, sc_cmp, sc_cmp_halt, sc_comment_rest, sc_digit_tail, sc_drop, sc_emoji_tail, sc_emojis, sc_eol, sc_expect, sc_expect_halt, sc_expression, sc_factor, sc_gap, sc_identifier, sc_if, sc_integer, sc_layout, sc_loop, sc_next, sc_print, sc_program, sc_push, sc_skip_spaces, sc_statement, sc_step, sc_term, scan_start};

verus! {

/// A position in the source: line and column, both counted from 1.
/// The counters stop at `u32::MAX` rather than wrap.
#[derive(Clone, Copy, Debug, PartialEq, Eq)]
pub struct Location {
    line: u32,
    col: u32,
}

pub open spec fn bump(x: u32) -> u32 {
    if x < u32::MAX { (x + 1) as u32 } else { x }
}

impl Location {
    pub closed spec fn line_spec(self) -> u32 {
        self.line
    }

    pub closed spec fn col_spec(self) -> u32 {
        self.col
    }

    pub closed spec fn start() -> Location {
        Location { line: 1, col: 1 }
    }

    /// The location one column further right.
    pub closed spec fn next_col(self) -> Location {
        Location { line: self.line, col: bump(self.col) }
    }

    /// The location at column 0 of the following line (the column of a line
    /// break's successor before it is read).
    pub closed spec fn next_line(self) -> Location {
        Location { line: bump(self.line), col: 0 }
    }

    /// What the location functions compute: reading starts at line 1,
    /// column 1; a character moves one column right, a line break to column
    /// 0 of the next line (each counter stopping at `u32::MAX`).
    pub proof fn lemma_moves()
        ensures
            Location::start().line_spec() == 1,
            Location::start().col_spec() == 1,
            forall|l: Location| #[trigger] l.next_col().line_spec() == l.line_spec() && l.next_col().col_spec() == bump(l.col_spec()),
            forall|l: Location| #[trigger] l.next_line().line_spec() == bump(l.line_spec()) && l.next_line().col_spec() == 0,
    {
    }

    fn new() -> (l: Location)
        ensures
            l == Location::start(),
    {
        Location { line: 1, col: 1 }
    }

    fn inc_char(&mut self)
        ensures
            *final(self) == old(self).next_col(),
    {
        if self.col < u32::MAX {
            self.col = self.col + 1;
        }
    }

    fn inc_line(&mut self)
        ensures
            *final(self) == old(self).next_line(),
    {
        if self.line < u32::MAX {
            self.line = self.line + 1;
        }
        self.col = 0;
    }

    /// The text of a location, `line:column>`, as it appears in messages.
    pub fn to_string(&self) -> (s: String)
        ensures
            s@ == loc_text(*self),
    {
        let mut s = String::new();
        push_decimal(&mut s, self.line as u64);
        push_char(&mut s, ':');
        push_decimal(&mut s, self.col as u64);
        push_char(&mut s, '>');
        s
    }
}

/// `line:column>`, the text by which messages name a location.
pub open spec fn loc_text(l: Location) -> Seq<char> {
    decimal(l.line_spec() as nat) + seq![':'] + decimal(l.col_spec() as nat) + seq!['>']
}

/// The kinds of token.
#[derive(Debug, Clone, PartialEq)]
pub enum TokenType {
    Assign,
    Emojis(String),
    Int(i32),
    IfKeyword,
    LoopKeyword,
    BreakKeyword,
    PrintKeyword,
    EQ,
    LT,
    GT,
    GEQ,
    LEQ,
    NEQ,
    LParen,
    RParen,
    LBrace,
    RBrace,
    Add,
    Subtract,
    Multiply,
    Divide,
    EOL,
}

/// The mathematical counterpart of [`TokenType`]: a variable name is its
/// sequence of characters.
pub enum Kind {
    Assign,
    Emojis(Seq<char>),
    Int(i32),
    IfKeyword,
    LoopKeyword,
    BreakKeyword,
    PrintKeyword,
    EQ,
    LT,
    GT,
    GEQ,
    LEQ,
    NEQ,
    LParen,
    RParen,
    LBrace,
    RBrace,
    Add,
    Subtract,
    Multiply,
    Divide,
    EOL,
}

impl View for TokenType {
    type V = Kind;

    open spec fn view(&self) -> Kind {
        match self {
            TokenType::Assign => Kind::Assign,
            TokenType::Emojis(s) => Kind::Emojis(s@),
            TokenType::Int(i) => Kind::Int(*i),
            TokenType::IfKeyword => Kind::IfKeyword,
            TokenType::LoopKeyword => Kind::LoopKeyword,
            TokenType::BreakKeyword => Kind::BreakKeyword,
            TokenType::PrintKeyword => Kind::PrintKeyword,
            TokenType::EQ => Kind::EQ,
            TokenType::LT => Kind::LT,
            TokenType::GT => Kind::GT,
            TokenType::GEQ => Kind::GEQ,
            TokenType::LEQ => Kind::LEQ,
            TokenType::NEQ => Kind::NEQ,
            TokenType::LParen => Kind::LParen,
            TokenType::RParen => Kind::RParen,
            TokenType::LBrace => Kind::LBrace,
            TokenType::RBrace => Kind::RBrace,
            TokenType::Add => Kind::Add,
            TokenType::Subtract => Kind::Subtract,
            TokenType::Multiply => Kind::Multiply,
            TokenType::Divide => Kind::Divide,
            TokenType::EOL => Kind::EOL,
        }
    }
}

impl TokenType {
    /// A copy of the token type with the same view.
    pub fn copy(&self) -> (t: TokenType)
        ensures
            t@ == self@,
    {
        match self {
            TokenType::Assign => TokenType::Assign,
            TokenType::Emojis(s) => TokenType::Emojis(s.clone()),
            TokenType::Int(i) => TokenType::Int(*i),
            TokenType::IfKeyword => TokenType::IfKeyword,
            TokenType::LoopKeyword => TokenType::LoopKeyword,
            TokenType::BreakKeyword => TokenType::BreakKeyword,
            TokenType::PrintKeyword => TokenType::PrintKeyword,
            TokenType::EQ => TokenType::EQ,
            TokenType::LT => TokenType::LT,
            TokenType::GT => TokenType::GT,
            TokenType::GEQ => TokenType::GEQ,
            TokenType::LEQ => TokenType::LEQ,
            TokenType::NEQ => TokenType::NEQ,
            TokenType::LParen => TokenType::LParen,
            TokenType::RParen => TokenType::RParen,
            TokenType::LBrace => TokenType::LBrace,
            TokenType::RBrace => TokenType::RBrace,
            TokenType::Add => TokenType::Add,
            TokenType::Subtract => TokenType::Subtract,
            TokenType::Multiply => TokenType::Multiply,
            TokenType::Divide => TokenType::Divide,
            TokenType::EOL => TokenType::EOL,
        }
    }
}

/// A token: its kind and the location at which it was read.
#[derive(Debug, Clone)]
pub struct Token {
    pub token_type: TokenType,
    pub location: Location,
}

/// The mathematical counterpart of [`Token`].
pub struct TokenView {
    pub kind: Kind,
    pub location: Location,
}

impl View for Token {
    type V = TokenView;

    open spec fn view(&self) -> TokenView {
        TokenView { kind: self.token_type@, location: self.location }
    }
}

impl Token {
    /// A copy of the token with the same view.
    pub fn copy(&self) -> (t: Token)
        ensures
            t@ == self@,
    {
        Token { token_type: self.token_type.copy(), location: self.location }
    }
}

/// The views of a sequence of tokens.
pub open spec fn token_views(v: Seq<Token>) -> Seq<TokenView> {
    v.map_values(|t: Token| t@)
}

/// A copy of a token vector with the same views.
pub fn copy_tokens(v: &Vec<Token>) -> (r: Vec<Token>)
    ensures
        token_views(r@) == token_views(v@),
{
    let mut r: Vec<Token> = Vec::new();
    let mut i: usize = 0;
    while i < v.len()
        invariant
            i <= v.len(),
            r@.len() == i,
            token_views(r@) == token_views(v@).take(i as int),
        decreases v.len() - i,
    {
        let ghost before = r@;
        r.push(v[i].copy());
        assert(r@ == before.push(r@[i as int]));
        assert forall|k: int| 0 <= k < i + 1 implies #[trigger] token_views(r@)[k] == token_views(v@)[k] by {
            if k < i {
                assert(token_views(before)[k] == token_views(v@).take(i as int)[k]);
            }
        }
        i = i + 1;
        assert(token_views(r@) =~= token_views(v@).take(i as int));
    }
    assert(token_views(v@).take(v.len() as int) =~= token_views(v@));
    r
}

// ---------------------------------------------------------------------------
// The alphabet

/// The emojis that may make up a variable name.
pub open spec fn user_emoji_table() -> Seq<char> {
    seq![
        '😀', '😃', '😄', '😁', '😆', '🥹', '😅', '😂', '🤣', '🥲',
        '😊', '😇', '🙂', '🙃', '😉', '😌', '😍', '🥰', '😘', '😗',
        '😙', '😚', '😋', '😛', '😝', '😜', '🤪', '🤨', '🧐', '🤓',
        '😎', '🥸', '🤩', '🥳', '😏', '😒', '😞', '😔', '😟', '😕',
        '🙁', '😣', '😖', '😫', '😩', '🥺', '😢', '😭', '😤', '😠',
        '😡', '🤬', '🤯', '😳', '🥵', '🥶', '😱', '😨', '😰', '😥',
        '😓', '🤗', '🤔', '🫣', '🤭', '🫢', '🫡', '🤫', '🫠', '🤥',
        '😶', '🫥', '😐', '🫤', '😑', '😬', '🙄', '😯', '😦', '😧',
        '😮', '😲', '🥱', '😴', '🤤', '😪', '😵', '🤐', '🥴', '🤢',
        '🤮', '🤧', '😷', '🤒', '🤕', '🤑', '🤠', '😈', '👿', '👹',
        '👺', '🤡', '💩', '👻', '💀', '👽', '👾', '🤖', '🎃', '😺',
        '😸', '😹', '😻', '😼', '😽', '🙀', '😿', '😾',
    ]
}

/// The clock faces that are the digits 0 to 9, in order.
pub open spec fn digit_table() -> Seq<char> {
    seq!['🕛', '🕐', '🕑', '🕒', '🕓', '🕔', '🕕', '🕖', '🕗', '🕘']
}

pub open spec fn is_user_emoji(c: char) -> bool {
    user_emoji_table().contains(c)
}

pub open spec fn is_digit(c: char) -> bool {
    digit_table().contains(c)
}

/// A character that ends a line: a line feed, a carriage return, or the
/// end-of-text sign '\u{2403}'.
pub open spec fn is_line_end(c: char) -> bool {
    c == '\n' || c == '\r' || c == '\u{2403}'
}

fn line_end(c: char) -> (b: bool)
    ensures
        b == is_line_end(c),
{
    c == '\n' || c == '\r' || c == '\u{2403}'
}

/// The value of a digit: its place in the table.
pub open spec fn digit_value(c: char) -> int {
    if c == '🕛' { 0 }
    else if c == '🕐' { 1 }
    else if c == '🕑' { 2 }
    else if c == '🕒' { 3 }
    else if c == '🕓' { 4 }
    else if c == '🕔' { 5 }
    else if c == '🕕' { 6 }
    else if c == '🕖' { 7 }
    else if c == '🕗' { 8 }
    else { 9 }
}

fn value_of_digit(c: char) -> (d: u8)
    ensures
        d == digit_value(c),
{
    if c == '🕛' { 0 }
    else if c == '🕐' { 1 }
    else if c == '🕑' { 2 }
    else if c == '🕒' { 3 }
    else if c == '🕓' { 4 }
    else if c == '🕔' { 5 }
    else if c == '🕕' { 6 }
    else if c == '🕖' { 7 }
    else if c == '🕗' { 8 }
    else { 9 }
}

/// The number that a sequence of digits writes, most significant first.
pub open spec fn digits_value(ds: Seq<char>) -> int
    decreases ds.len(),
{
    if ds.len() == 0 {
        0
    } else {
        digits_value(ds.drop_last()) * 10 + digit_value(ds.last())
    }
}

/// The ten least significant digits of `ds` (all of them, where there are
/// fewer).
pub open spec fn low_digits(ds: Seq<char>) -> Seq<char> {
    if ds.len() <= 10 {
        ds
    } else {
        ds.subrange(ds.len() - 10, ds.len() as int)
    }
}

/// The value of a run of digits as an `i32`, or the overflow that computing
/// it meets. The value is summed in `i32` from the least significant digit
/// up, the digit at place `i` adding `digit * 10^i`: at place 9 a digit of 3
/// or more overflows the multiplication; otherwise a sum of the ten lowest
/// places above `i32::MAX` overflows the addition; and with more than ten
/// digits, `10^10` overflows the multiplication.
pub open spec fn int_of_digits(ds: Seq<char>) -> Result<i32, Seq<char>> {
    let low = low_digits(ds);
    if low.len() == 10 && digit_value(low[0]) >= 3 {
        Err(mul_overflow_panic())
    } else if digits_value(low) > i32::MAX {
        Err(add_overflow_panic())
    } else if ds.len() > 10 {
        Err(mul_overflow_panic())
    } else {
        Ok(digits_value(ds) as i32)
    }
}

struct ValidEmojis {
    user_emojis: Vec<char>,
}

impl ValidEmojis {
    fn new() -> (e: ValidEmojis)
        ensures
            e.user_emojis@ == user_emoji_table(),
    {
        let v: Vec<char> = vec![
        '😀', '😃', '😄', '😁', '😆', '🥹', '😅', '😂', '🤣', '🥲',
        '😊', '😇', '🙂', '🙃', '😉', '😌', '😍', '🥰', '😘', '😗',
        '😙', '😚', '😋', '😛', '😝', '😜', '🤪', '🤨', '🧐', '🤓',
        '😎', '🥸', '🤩', '🥳', '😏', '😒', '😞', '😔', '😟', '😕',
        '🙁', '😣', '😖', '😫', '😩', '🥺', '😢', '😭', '😤', '😠',
        '😡', '🤬', '🤯', '😳', '🥵', '🥶', '😱', '😨', '😰', '😥',
        '😓', '🤗', '🤔', '🫣', '🤭', '🫢', '🫡', '🤫', '🫠', '🤥',
        '😶', '🫥', '😐', '🫤', '😑', '😬', '🙄', '😯', '😦', '😧',
        '😮', '😲', '🥱', '😴', '🤤', '😪', '😵', '🤐', '🥴', '🤢',
        '🤮', '🤧', '😷', '🤒', '🤕', '🤑', '🤠', '😈', '👿', '👹',
        '👺', '🤡', '💩', '👻', '💀', '👽', '👾', '🤖', '🎃', '😺',
        '😸', '😹', '😻', '😼', '😽', '🙀', '😿', '😾',
        ];
        assert(v@ =~= user_emoji_table());
        ValidEmojis { user_emojis: v }
    }
}

struct ValidDigits {
    digits: Vec<char>,
}

/// Whether `c` occurs in `v`.
fn vec_contains(v: &Vec<char>, c: char) -> (b: bool)
    ensures
        b == v@.contains(c),
{
    let mut i: usize = 0;
    while i < v.len()
        invariant
            i <= v.len(),
            forall|j: int| 0 <= j < i ==> v@[j] != c,
        decreases v.len() - i,
    {
        if v[i] == c {
            assert(v@[i as int] == c);
            return true;
        }
        i = i + 1;
    }
    false
}

impl ValidDigits {
    fn new() -> (d: ValidDigits)
        ensures
            d.digits@ == digit_table(),
    {
        let v: Vec<char> = vec!['🕛', '🕐', '🕑', '🕒', '🕓', '🕔', '🕕', '🕖', '🕗', '🕘'];
        assert(v@ =~= digit_table());
        ValidDigits { digits: v }
    }

    /// The integer token that a run of digits writes, or the overflow that
    /// computing it meets (see [`int_of_digits`]).
    fn generate_int(chars: Vec<char>) -> (t: Result<TokenType, Failure>)
        ensures
            match (t, int_of_digits(chars@)) {
                (Ok(tt), Ok(n)) => tt@ == Kind::Int(n),
                (Err(f), Err(m)) => f@ == FailureView::Panic(m),
                _ => false,
            },
    {
        let n = chars.len();
        let lo: usize = if n > 10 { n - 10 } else { 0 };
        let mut sum: i64 = 0;
        let mut i: usize = lo;
        while i < n
            invariant
                n == chars.len(),
                lo <= i <= n,
                n - lo <= 10,
                sum == digits_value(chars@.subrange(lo as int, i as int)),
                0 <= sum < pow10((i - lo) as nat),
            decreases n - i,
        {
            let d = value_of_digit(chars[i]);
            proof {
                lemma_pow10_step((i - lo) as nat);
                assert(chars@.subrange(lo as int, i + 1).drop_last() =~= chars@.subrange(lo as int, i as int));
            }
            sum = sum * 10 + d as i64;
            i = i + 1;
        }
        let ghost low = low_digits(chars@);
        assert(chars@.subrange(lo as int, n as int) =~= low);
        if n - lo == 10 && value_of_digit(chars[lo]) >= 3 {
            assert(low[0] == chars@[lo as int]);
            return Err(Failure::Panic(string_of("attempt to multiply with overflow")));
        }
        proof {
            if n - lo == 10 {
                assert(low[0] == chars@[lo as int]);
            }
        }
        if sum > 2147483647 {
            return Err(Failure::Panic(string_of("attempt to add with overflow")));
        }
        if n > 10 {
            return Err(Failure::Panic(string_of("attempt to multiply with overflow")));
        }
        Ok(TokenType::Int(sum as i32))
    }
}

pub open spec fn pow10(n: nat) -> int
    decreases n,
{
    if n == 0 { 1 } else { 10 * pow10((n - 1) as nat) }
}

proof fn lemma_pow10_step(n: nat)
    ensures
        pow10(n + 1) == 10 * pow10(n),
        pow10(n) >= 1,
        n <= 10 ==> pow10(n) <= 10000000000,
    decreases n,
{
    if n > 0 {
        lemma_pow10_step((n - 1) as nat);
    }
    if n <= 10 {
        lemma_pow10_bound(n);
    }
}

proof fn lemma_pow10_bound(n: nat)
    requires
        n <= 10,
    ensures
        1 <= pow10(n) <= 10000000000,
    decreases 10 - n,
{
    if n == 10 {
        reveal_with_fuel(pow10, 11);
    } else {
        lemma_pow10_bound(n + 1);
        assert(pow10(n + 1) == 10 * pow10(n));
    }
}


// ---------------------------------------------------------------------------
// The tokenizer

/// Reads Pajson source and produces its tokens.
pub struct Tokenizer {
    code: Vec<char>,
    pos: usize,
    valid_emojis: ValidEmojis,
    valid_digits: ValidDigits,
    cur_loc: Location,
    token_vec: Vec<Token>,
}

/// The state after a reader that reported `r`.
pub open spec fn outcome(r: Result<(), Failure>, s: ScanState) -> Result<ScanState, FailureView> {
    match r {
        Ok(_) => Ok(s),
        Err(e) => Err(e@),
    }
}

impl Tokenizer {
    /// The whole source.
    pub closed spec fn source(&self) -> Seq<char> {
        self.code@
    }

    /// How far reading has got, where, and the tokens so far.
    pub closed spec fn state(&self) -> ScanState {
        ScanState { pos: self.pos as int, loc: self.cur_loc, toks: token_views(self.token_vec@) }
    }

    pub closed spec fn wf(&self) -> bool {
        &&& self.pos <= self.code@.len()
        &&& self.valid_emojis.user_emojis@ == user_emoji_table()
        &&& self.valid_digits.digits@ == digit_table()
    }

    /// A tokenizer at the start of `code`.
    pub fn new(code: Vec<char>) -> (t: Tokenizer)
        ensures
            t.wf(),
            t.source() == code@,
            t.state() == scan_start(),
    {
        let t = Tokenizer {
            code: code,
            pos: 0,
            valid_emojis: ValidEmojis::new(),
            valid_digits: ValidDigits::new(),
            cur_loc: Location::new(),
            token_vec: Vec::new(),
        };
        assert(token_views(t.token_vec@) =~= Seq::empty());
        t
    }

    fn is_empty(&self) -> (b: bool)
        requires
            self.wf(),
        ensures
            b == (sc_at(self.source(), self.state()) is None),
    {
        self.pos >= self.code.len()
    }

    fn current(&self) -> (r: Option<char>)
        requires
            self.wf(),
        ensures
            r == sc_at(self.source(), self.state()),
    {
        if self.pos < self.code.len() {
            Some(self.code[self.pos])
        } else {
            None
        }
    }

    fn is_user_emoji(&self, c: char) -> (b: bool)
        requires
            self.wf(),
        ensures
            b == is_user_emoji(c),
    {
        vec_contains(&self.valid_emojis.user_emojis, c)
    }

    fn is_valid_digit(&self, c: char) -> (b: bool)
        requires
            self.wf(),
        ensures
            b == is_digit(c),
    {
        vec_contains(&self.valid_digits.digits, c)
    }

    /// Reads the character at the position.
    fn step(&mut self)
        requires
            old(self).wf(),
            old(self).pos < old(self).code.len(),
        ensures
            final(self).wf(),
            final(self).code@ == old(self).code@,
            final(self).state() == sc_step(old(self).source(), old(self).state()),
    {
        if line_end(self.code[self.pos]) {
            self.cur_loc.inc_line();
        } else {
            self.cur_loc.inc_char();
        }
        self.pos = self.pos + 1;
    }

    fn push_token(&mut self, token_type: TokenType)
        requires
            old(self).wf(),
        ensures
            final(self).wf(),
            final(self).code@ == old(self).code@,
            final(self).state() == sc_push(old(self).state(), token_type@),
    {
        let ghost before = self.token_vec@;
        let t = Token { token_type: token_type, location: self.cur_loc };
        self.token_vec.push(t);
        assert(token_views(self.token_vec@) =~= token_views(before).push(t@));
    }

    fn check_comment(&mut self)
        requires
            old(self).wf(),
        ensures
            final(self).wf(),
            final(self).code@ == old(self).code@,
            final(self).state() == sc_check_comment(old(self).source(), old(self).state()),
    {
        let ghost c = self.code@;
        if self.pos < self.code.len() && self.code[self.pos] == '🙈' {
            let ghost start = sc_drop(self.state());
            self.pos = self.pos + 1;
            while self.pos < self.code.len()
                invariant
                    self.wf(),
                    self.code@ == c,
                    c == old(self).code@,
                    start == sc_drop(old(self).state()),
                    sc_at(c, old(self).state()) == Some('🙈'),
                    sc_comment_rest(c, self.state()) == sc_comment_rest(c, start),
                decreases self.code@.len() - self.pos,
            {
                if line_end(self.code[self.pos]) {
                    self.step();
                    return;
                }
                self.pos = self.pos + 1;
            }
        }
    }

    fn check_white_space(&mut self)
        requires
            old(self).wf(),
        ensures
            final(self).wf(),
            final(self).code@ == old(self).code@,
            final(self).state() == sc_skip_spaces(old(self).source(), old(self).state()),
    {
        let ghost c = self.code@;
        let ghost start = self.state();
        while self.pos < self.code.len() && self.code[self.pos] == ' '
            invariant
                self.wf(),
                self.code@ == c,
                c == old(self).code@,
                start == old(self).state(),
                sc_skip_spaces(c, self.state()) == sc_skip_spaces(c, start),
            decreases self.code@.len() - self.pos,
        {
            self.step();
        }
    }

    /// Reads the blank and comment lines ahead.
    fn skip_gap(&mut self)
        requires
            old(self).wf(),
        ensures
            final(self).wf(),
            final(self).code@ == old(self).code@,
            final(self).state() == sc_gap(old(self).source(), old(self).state()),
    {
        let ghost c = self.code@;
        let ghost goal = sc_gap(c, self.state());
        loop
            invariant
                self.wf(),
                self.code@ == c,
                c == old(self).code@,
                goal == sc_gap(c, old(self).state()),
                sc_gap(c, self.state()) == goal,
            decreases self.code@.len() - self.pos,
        {
            if self.pos >= self.code.len() {
                return;
            }
            let ch = self.code[self.pos];
            if ch == ' ' || line_end(ch) {
                self.step();
            } else if ch == '🙈' {
                proof {
                    lemma_comment_rest(c, sc_drop(self.state()));
                }
                self.check_comment();
            } else {
                return;
            }
        }
    }

    /// Drops the layout ahead and returns the next character.
    fn peek(&mut self) -> (r: Option<char>)
        requires
            old(self).wf(),
        ensures
            final(self).wf(),
            final(self).code@ == old(self).code@,
            final(self).state() == sc_layout(old(self).source(), old(self).state()),
            r == sc_at(final(self).source(), final(self).state()),
    {
        self.check_comment();
        self.check_white_space();
        self.current()
    }

    fn next(&mut self) -> (r: Result<(), Failure>)
        requires
            old(self).wf(),
        ensures
            final(self).wf(),
            final(self).code@ == old(self).code@,
            outcome(r, final(self).state()) == sc_next(old(self).source(), old(self).state()),
    {
        self.check_comment();
        if !self.is_empty() {
            let p = self.peek();
            if p.is_none() {
                return Err(Failure::Panic(string_of("range start index 1 out of range for slice of length 0")));
            }
            self.step();
        }
        Ok(())
    }

    /// Looks at the next character, then advances past it.
    fn get_next(&mut self) -> (r: Result<Option<char>, Failure>)
        requires
            old(self).wf(),
        ensures
            final(self).wf(),
            final(self).code@ == old(self).code@,
            ({
                let c = old(self).source();
                let t = sc_layout(c, old(self).state());
                match r {
                    Ok(p) => p == sc_at(c, t) && sc_next(c, t) == Ok::<ScanState, FailureView>(final(self).state()),
                    Err(e) => sc_next(c, t) == Err::<ScanState, FailureView>(e@),
                }
            }),
    {
        let tmp = self.peek();
        match self.next() {
            Ok(_) => Ok(tmp),
            Err(e) => Err(e),
        }
    }

    /// `msg at line:column>` at the current location.
    fn error(&self, msg: &str) -> (f: Failure)
        ensures
            f@ == err_at(msg@, self.cur_loc),
    {
        let mut s = string_of(msg);
        push_str(&mut s, " at ");
        let l = self.cur_loc.to_string();
        push_str(&mut s, l.as_str());
        assert(s@ =~= msg@ + " at "@ + loc_text(self.cur_loc));
        Failure::Error(s)
    }

    /// `prefix 'ch' at line:column>` at the current location.
    fn error_expected(&self, ch: char) -> (f: Failure)
        ensures
            f@ == FailureView::Error("expected '"@ + seq![ch] + "' at "@ + loc_text(self.cur_loc)),
    {
        let mut s = string_of("expected '");
        push_char(&mut s, ch);
        push_str(&mut s, "' at ");
        let l = self.cur_loc.to_string();
        push_str(&mut s, l.as_str());
        assert(s@ =~= "expected '"@ + seq![ch] + "' at "@ + loc_text(self.cur_loc));
        Failure::Error(s)
    }

    fn expect(&mut self, c: char) -> (r: Result<(), Failure>)
        requires
            old(self).wf(),
        ensures
            final(self).wf(),
            final(self).code@ == old(self).code@,
            outcome(r, final(self).state()) == sc_expect(old(self).source(), old(self).state(), c),
            r matches Err(Failure::Error(_)) ==> final(self).state() == sc_expect_halt(old(self).source(), old(self).state()),
    {
        match self.get_next() {
            Err(e) => Err(e),
            Ok(p) => {
                if let Some(cur_c) = p {
                    if cur_c == c {
                        return Ok(());
                    }
                }
                Err(self.error_expected(c))
            },
        }
    }

    fn expect_eol(&mut self) -> (r: Result<(), Failure>)
        requires
            old(self).wf(),
        ensures
            final(self).wf(),
            final(self).code@ == old(self).code@,
            outcome(r, final(self).state()) == sc_eol(old(self).source(), old(self).state()),
            r is Err ==> final(self).state() == sc_layout(old(self).source(), old(self).state()),
    {
        match self.peek() {
            None => {
                self.cur_loc.inc_char();
                self.push_token(TokenType::EOL);
                Ok(())
            },
            Some(ch) => {
                if line_end(ch) {
                    self.push_token(TokenType::EOL);
                    self.step();
                    Ok(())
                } else {
                    let mut s = string_of("expected eol, instead found at ");
                    push_char(&mut s, ch);
                    assert(s@ =~= "expected eol, instead found at "@ + seq![ch]);
                    Err(Failure::Error(s))
                }
            },
        }
    }

    fn emoji_tail(&mut self, name: &mut String)
        requires
            old(self).wf(),
        ensures
            final(self).wf(),
            final(self).code@ == old(self).code@,
            (final(self).state(), final(name)@) == sc_emoji_tail(old(self).source(), old(self).state(), old(name)@),
    {
        let ghost c = self.code@;
        let ghost goal = sc_emoji_tail(c, self.state(), name@);
        loop
            invariant
                self.wf(),
                self.code@ == c,
                c == old(self).code@,
                goal == sc_emoji_tail(c, old(self).state(), old(name)@),
                sc_emoji_tail(c, self.state(), name@) == goal,
            decreases self.code@.len() - self.pos,
        {
            if self.is_empty() {
                return;
            }
            let ghost before = self.state();
            proof {
                lemma_layout(c, before);
            }
            match self.peek() {
                None => return,
                Some(ch) => {
                    if self.is_user_emoji(ch) {
                        self.step();
                        push_char(name, ch);
                    } else {
                        return;
                    }
                },
            }
        }
    }

    fn expect_emojis(&mut self) -> (r: Result<(), Failure>)
        requires
            old(self).wf(),
        ensures
            final(self).wf(),
            final(self).code@ == old(self).code@,
            outcome(r, final(self).state()) == sc_emojis(old(self).source(), old(self).state()),
    {
        let p = match self.get_next() {
            Err(e) => return Err(e),
            Ok(p) => p,
        };
        let mut name = String::new();
        match p {
            None => return Err(self.error("expected emojis")),
            Some(c) => {
                if self.is_user_emoji(c) {
                    push_char(&mut name, c);
                } else {
                    return Err(self.error("expected emojis"));
                }
            },
        }
        assert(name@ =~= seq![p.unwrap()]);
        self.emoji_tail(&mut name);
        self.push_token(TokenType::Emojis(name));
        Ok(())
    }

    fn digit_tail(&mut self, ds: &mut Vec<char>)
        requires
            old(self).wf(),
        ensures
            final(self).wf(),
            final(self).code@ == old(self).code@,
            (final(self).state(), final(ds)@) == sc_digit_tail(old(self).source(), old(self).state(), old(ds)@),
    {
        let ghost c = self.code@;
        let ghost goal = sc_digit_tail(c, self.state(), ds@);
        loop
            invariant
                self.wf(),
                self.code@ == c,
                c == old(self).code@,
                goal == sc_digit_tail(c, old(self).state(), old(ds)@),
                sc_digit_tail(c, self.state(), ds@) == goal,
            decreases self.code@.len() - self.pos,
        {
            if self.is_empty() {
                return;
            }
            let ghost before = self.state();
            proof {
                lemma_layout(c, before);
            }
            match self.peek() {
                None => return,
                Some(ch) => {
                    if self.is_valid_digit(ch) {
                        self.step();
                        ds.push(ch);
                    } else {
                        return;
                    }
                },
            }
        }
    }

    fn expect_integer(&mut self) -> (r: Result<(), Failure>)
        requires
            old(self).wf(),
        ensures
            final(self).wf(),
            final(self).code@ == old(self).code@,
            outcome(r, final(self).state()) == sc_integer(old(self).source(), old(self).state()),
    {
        let p = self.peek();
        let first_is_digit = match p {
            Some(ch) => self.is_valid_digit(ch),
            None => false,
        };
        if !first_is_digit {
            return Err(self.error("expected integer"));
        }
        let mut int_symbols: Vec<char> = Vec::new();
        assert(int_symbols@ =~= Seq::<char>::empty());
        self.digit_tail(&mut int_symbols);
        match ValidDigits::generate_int(int_symbols) {
            Err(f) => Err(f),
            Ok(t) => {
                self.push_token(t);
                Ok(())
            },
        }
    }

    fn expect_identifier(&mut self) -> (r: Result<(), Failure>)
        requires
            old(self).wf(),
        ensures
            final(self).wf(),
            final(self).code@ == old(self).code@,
            outcome(r, final(self).state()) == sc_identifier(old(self).source(), old(self).state()),
    {
        if let Some(c) = self.peek() {
            if self.is_user_emoji(c) {
                return self.expect_emojis();
            } else if self.is_valid_digit(c) {
                return self.expect_integer();
            }
        }
        Err(self.error("expected identifier"))
    }

    fn expect_cmp(&mut self) -> (r: Result<(), Failure>)
        requires
            old(self).wf(),
        ensures
            final(self).wf(),
            final(self).code@ == old(self).code@,
            outcome(r, final(self).state()) == sc_cmp(old(self).source(), old(self).state()),
            r matches Err(Failure::Error(_)) ==> final(self).state() == sc_cmp_halt(old(self).source(), old(self).state()),
    {
        match self.peek() {
            Some(ch) => {
                if ch == '👎' {
                    self.step();
                    match self.peek() {
                        Some(d) => {
                            if d == '🐰' {
                                self.push_token(TokenType::GEQ);
                                self.step();
                            } else if d == '🐊' {
                                self.push_token(TokenType::LEQ);
                                self.step();
                            } else if d == '👈' {
                                self.push_token(TokenType::NEQ);
                                self.step();
                            } else {
                                return Err(self.error("expected '🐰'|'🐊'|'👈'"));
                            }
                        },
                        None => return Err(self.error("expected '🐰'|'🐊'|'👈'")),
                    }
                    Ok(())
                } else if ch == '🐰' {
                    self.push_token(TokenType::LT);
                    self.step();
                    Ok(())
                } else if ch == '🐊' {
                    self.push_token(TokenType::GT);
                    self.step();
                    Ok(())
                } else if ch == '👉' {
                    self.push_token(TokenType::EQ);
                    self.step();
                    self.expect('👈')
                } else {
                    Err(self.error("expected cmp"))
                }
            },
            None => Err(self.error("expected cmp")),
        }
    }
}


impl Tokenizer {
    fn expect_factor(&mut self) -> (r: Result<(), Failure>)
        requires
            old(self).wf(),
        ensures
            final(self).wf(),
            final(self).code@ == old(self).code@,
            outcome(r, final(self).state()) == sc_factor(old(self).source(), old(self).state()),
        decreases old(self).code@.len() - old(self).pos, 0int,
    {
        let ghost c = self.code@;
        let ghost s0 = self.state();
        proof {
            lemma_layout(c, s0);
        }
        match self.peek() {
            Some(ch) => {
                if ch == '✋' {
                    self.push_token(TokenType::LParen);
                    self.step();
                    match self.expect_expression() {
                        Err(e) => Err(e),
                        Ok(_) => {
                            let q = self.peek();
                            if let Some(x) = q {
                                if x == '🤚' {
                                    self.push_token(TokenType::RParen);
                                    self.step();
                                    return Ok(());
                                }
                            }
                            Err(self.error_expected_close())
                        },
                    }
                } else if ch == '➖' {
                    self.push_token(TokenType::Subtract);
                    self.step();
                    self.expect_factor()
                } else {
                    self.expect_identifier()
                }
            },
            None => Err(self.error("expected factor")),
        }
    }

    fn error_expected_close(&self) -> (f: Failure)
        ensures
            f@ == FailureView::Error("expected '🤚' at "@ + loc_text(self.cur_loc)),
    {
        let mut s = string_of("expected '🤚' at ");
        let l = self.cur_loc.to_string();
        push_str(&mut s, l.as_str());
        Failure::Error(s)
    }

    fn expect_term(&mut self) -> (r: Result<(), Failure>)
        requires
            old(self).wf(),
        ensures
            final(self).wf(),
            final(self).code@ == old(self).code@,
            outcome(r, final(self).state()) == sc_term(old(self).source(), old(self).state()),
        decreases old(self).code@.len() - old(self).pos, 1int,
    {
        let ghost c = self.code@;
        let ghost s0 = self.state();
        proof {
            lemma_factor(c, s0);
        }
        match self.expect_factor() {
            Err(e) => return Err(e),
            Ok(_) => {},
        }
        let ghost u = self.state();
        proof {
            lemma_layout(c, u);
        }
        match self.peek() {
            Some(ch) => {
                if ch == '❎' {
                    self.push_token(TokenType::Multiply);
                    self.step();
                    self.expect_term()
                } else if ch == '➗' {
                    self.push_token(TokenType::Divide);
                    self.step();
                    self.expect_term()
                } else {
                    Ok(())
                }
            },
            None => Ok(()),
        }
    }

    fn expect_expression(&mut self) -> (r: Result<(), Failure>)
        requires
            old(self).wf(),
        ensures
            final(self).wf(),
            final(self).code@ == old(self).code@,
            outcome(r, final(self).state()) == sc_expression(old(self).source(), old(self).state()),
        decreases old(self).code@.len() - old(self).pos, 2int,
    {
        let ghost c = self.code@;
        let ghost s0 = self.state();
        proof {
            lemma_term(c, s0);
        }
        match self.expect_term() {
            Err(e) => return Err(e),
            Ok(_) => {},
        }
        let ghost u = self.state();
        proof {
            lemma_layout(c, u);
        }
        match self.peek() {
            Some(ch) => {
                if ch == '➕' {
                    self.push_token(TokenType::Add);
                    self.step();
                    self.expect_expression()
                } else if ch == '➖' {
                    self.push_token(TokenType::Subtract);
                    self.step();
                    self.expect_expression()
                } else {
                    Ok(())
                }
            },
            None => Ok(()),
        }
    }

    fn expect_assertion(&mut self) -> (r: Result<(), Failure>)
        requires
            old(self).wf(),
        ensures
            final(self).wf(),
            final(self).code@ == old(self).code@,
            outcome(r, final(self).state()) == sc_assertion(old(self).source(), old(self).state()),
    {
        match self.expect_emojis() {
            Err(e) => return Err(e),
            Ok(_) => {},
        }
        let p = self.peek();
        let is_assign = match p {
            Some(ch) => ch == '👈',
            None => false,
        };
        if is_assign {
            self.step();
            self.push_token(TokenType::Assign);
        } else {
            self.cur_loc.inc_char();
            return Err(self.error_expected_assign());
        }
        match self.expect_expression() {
            Err(e) => return Err(e),
            Ok(_) => {},
        }
        self.expect_eol()
    }

    fn error_expected_assign(&self) -> (f: Failure)
        ensures
            f@ == FailureView::Error("expected '👈' at "@ + loc_text(self.cur_loc)),
    {
        let mut s = string_of("expected '👈' at ");
        let l = self.cur_loc.to_string();
        push_str(&mut s, l.as_str());
        Failure::Error(s)
    }

    fn expect_print(&mut self) -> (r: Result<(), Failure>)
        requires
            old(self).wf(),
        ensures
            final(self).wf(),
            final(self).code@ == old(self).code@,
            outcome(r, final(self).state()) == sc_print(old(self).source(), old(self).state()),
    {
        match self.expect('💬') {
            Ok(_) => self.push_token(TokenType::PrintKeyword),
            Err(e) => return Err(e),
        }
        match self.expect('✋') {
            Ok(_) => self.push_token(TokenType::LParen),
            Err(e) => return Err(e),
        }
        match self.expect_expression() {
            Ok(_) => {},
            Err(e) => return Err(e),
        }
        match self.expect('🤚') {
            Ok(_) => self.push_token(TokenType::RParen),
            Err(e) => return Err(e),
        }
        self.expect_eol()
    }

    fn expect_statement(&mut self) -> (r: Result<(), Failure>)
        requires
            old(self).wf(),
        ensures
            final(self).wf(),
            final(self).code@ == old(self).code@,
            outcome(r, final(self).state()) == sc_statement(old(self).source(), old(self).state()),
            r is Ok ==> old(self).pos <= final(self).pos,
            r is Ok && must_advance(old(self).source(), old(self).state()) ==> old(self).pos < final(self).pos,
        decreases old(self).code@.len() - old(self).pos, 3int,
    {
        let ghost c = self.code@;
        let ghost s0 = self.state();
        proof {
            lemma_layout(c, s0);
            if sc_at(c, s0) == Some('🙈') {
                lemma_comment_rest(c, sc_drop(s0));
                lemma_skip_spaces(c, sc_check_comment(c, s0));
            }
        }
        match self.peek() {
            None => Ok(()),
            Some(ch) => {
                let ghost t = self.state();
                if self.is_user_emoji(ch) {
                    proof {
                        lemma_assertion(c, t);
                    }
                    self.expect_assertion()
                } else if ch == '👀' {
                    self.expect_if_statement()
                } else if ch == '🔄' {
                    self.expect_loop()
                } else if ch == '💬' {
                    proof {
                        lemma_print(c, t);
                    }
                    self.expect_print()
                } else if ch == '🔚' {
                    self.push_token(TokenType::BreakKeyword);
                    self.step();
                    let ghost v = self.state();
                    proof {
                        lemma_eol(c, v);
                    }
                    self.expect_eol()
                } else {
                    Err(self.error("expected identifier"))
                }
            },
        }
    }

    /// The statements of a block, up to its closing '🫴'; where `need`, at
    /// least one.
    fn expect_block(&mut self, need: bool) -> (r: Result<(), Failure>)
        requires
            old(self).wf(),
        ensures
            final(self).wf(),
            final(self).code@ == old(self).code@,
            outcome(r, final(self).state()) == sc_block(old(self).source(), old(self).state(), need),
            r is Ok ==> old(self).pos <= final(self).pos,
        decreases old(self).code@.len() - old(self).pos, 4int,
    {
        let ghost c = self.code@;
        let ghost goal = sc_block(c, self.state(), need);
        let mut need_now = need;
        loop
            invariant
                self.wf(),
                self.code@ == c,
                c == old(self).code@,
                old(self).pos <= self.pos,
                goal == sc_block(c, old(self).state(), need),
                sc_block(c, self.state(), need_now) == goal,
            decreases self.code@.len() - self.pos,
        {
            let ghost s = self.state();
            proof {
                lemma_gap(c, s);
            }
            self.skip_gap();
            match self.current() {
                None => return Ok(()),
                Some(ch) => {
                    if ch == '🫴' {
                        if need_now {
                            return Err(self.error("expected identifier"));
                        }
                        return Ok(());
                    }
                    match self.expect_statement() {
                        Err(e) => return Err(e),
                        Ok(_) => {},
                    }
                    need_now = false;
                },
            }
        }
    }

    fn expect_loop(&mut self) -> (r: Result<(), Failure>)
        requires
            old(self).wf(),
        ensures
            final(self).wf(),
            final(self).code@ == old(self).code@,
            outcome(r, final(self).state()) == sc_loop(old(self).source(), old(self).state()),
            r is Ok ==> old(self).pos < final(self).pos,
        decreases old(self).code@.len() - old(self).pos, 2int,
    {
        let ghost c = self.code@;
        let ghost s0 = self.state();
        proof {
            lemma_expect(c, s0, '🔄');
        }
        match self.expect('🔄') {
            Ok(_) => self.push_token(TokenType::LoopKeyword),
            Err(e) => return Err(e),
        }
        let ghost s1 = self.state();
        proof {
            lemma_expect(c, s1, '🫳');
        }
        match self.expect('🫳') {
            Ok(_) => self.push_token(TokenType::LBrace),
            Err(e) => return Err(e),
        }
        let ghost s2 = self.state();
        proof {
            lemma_eol(c, s2);
        }
        match self.expect_eol() {
            Ok(_) => {},
            Err(e) => return Err(e),
        }
        match self.expect_block(true) {
            Ok(_) => {},
            Err(e) => return Err(e),
        }
        let ghost s3 = self.state();
        proof {
            lemma_expect(c, s3, '🫴');
        }
        match self.expect('🫴') {
            Ok(_) => self.push_token(TokenType::RBrace),
            Err(e) => return Err(e),
        }
        let ghost s4 = self.state();
        proof {
            lemma_eol(c, s4);
        }
        self.expect_eol()
    }

    fn expect_if_statement(&mut self) -> (r: Result<(), Failure>)
        requires
            old(self).wf(),
        ensures
            final(self).wf(),
            final(self).code@ == old(self).code@,
            outcome(r, final(self).state()) == sc_if(old(self).source(), old(self).state()),
            r is Ok ==> old(self).pos < final(self).pos,
        decreases old(self).code@.len() - old(self).pos, 2int,
    {
        let ghost c = self.code@;
        let ghost s0 = self.state();
        proof {
            lemma_expect(c, s0, '👀');
        }
        match self.expect('👀') {
            Ok(_) => self.push_token(TokenType::IfKeyword),
            Err(e) => return Err(e),
        }
        let ghost s1 = self.state();
        proof {
            lemma_expression(c, s1);
        }
        match self.expect_expression() {
            Ok(_) => {},
            Err(e) => return Err(e),
        }
        let ghost s2 = self.state();
        proof {
            lemma_cmp(c, s2);
        }
        match self.expect_cmp() {
            Ok(_) => {},
            Err(e) => return Err(e),
        }
        let ghost s3 = self.state();
        proof {
            lemma_expression(c, s3);
        }
        match self.expect_expression() {
            Ok(_) => {},
            Err(e) => return Err(e),
        }
        let ghost s4 = self.state();
        proof {
            lemma_expect(c, s4, '🫳');
        }
        match self.expect('🫳') {
            Ok(_) => self.push_token(TokenType::LBrace),
            Err(e) => return Err(e),
        }
        let ghost s5 = self.state();
        proof {
            lemma_eol(c, s5);
        }
        match self.expect_eol() {
            Ok(_) => {},
            Err(e) => return Err(e),
        }
        match self.expect_block(true) {
            Ok(_) => {},
            Err(e) => return Err(e),
        }
        let ghost s6 = self.state();
        proof {
            lemma_expect(c, s6, '🫴');
        }
        match self.expect('🫴') {
            Ok(_) => self.push_token(TokenType::RBrace),
            Err(e) => return Err(e),
        }
        let ghost s7 = self.state();
        proof {
            lemma_eol(c, s7);
        }
        self.expect_eol()
    }

    /// Reads the statements of the rest of the source.
    fn tokenize_rest(&mut self) -> (r: Result<(), Failure>)
        requires
            old(self).wf(),
        ensures
            final(self).wf(),
            final(self).code@ == old(self).code@,
            outcome(r, final(self).state()) == sc_program(old(self).source(), old(self).state()),
    {
        let ghost c = self.code@;
        let ghost goal = sc_program(c, self.state());
        while !self.is_empty()
            invariant
                self.wf(),
                self.code@ == c,
                c == old(self).code@,
                goal == sc_program(c, old(self).state()),
                sc_program(c, self.state()) == goal,
            decreases self.code@.len() - self.pos,
        {
            let ghost s = self.state();
            proof {
                lemma_gap(c, s);
            }
            self.skip_gap();
            if !self.is_empty() {
                match self.expect_statement() {
                    Err(e) => return Err(e),
                    Ok(_) => {},
                }
            }
        }
        Ok(())
    }

    /// The tokens of the rest of the source, or the error that stops
    /// reading; also where reading gives up.
    pub fn try_tokenize(&mut self) -> (r: Result<Vec<Token>, Failure>)
        requires
            old(self).wf(),
        ensures
            final(self).wf(),
            final(self).source() == old(self).source(),
            match (r, sc_program(old(self).source(), old(self).state())) {
                (Ok(v), Ok(s)) => token_views(v@) == s.toks && final(self).state() == s,
                (Err(f), Err(e)) => f@ == e,
                _ => false,
            },
    {
        match self.tokenize_rest() {
            Err(e) => Err(e),
            Ok(_) => Ok(copy_tokens(&self.token_vec)),
        }
    }

    /// The tokens of the rest of the source (all of it, for a new tokenizer),
    /// or the message of the error that stops reading. Not for sources on
    /// which reading gives up (see [`Tokenizer::try_tokenize`]).
    pub fn tokenize(&mut self) -> (r: Result<Vec<Token>, String>)
        requires
            old(self).wf(),
            !(sc_program(old(self).source(), old(self).state()) matches Err(FailureView::Panic(_))),
        ensures
            final(self).wf(),
            final(self).source() == old(self).source(),
            match (r, sc_program(old(self).source(), old(self).state())) {
                (Ok(v), Ok(s)) => token_views(v@) == s.toks && final(self).state() == s,
                (Err(m), Err(FailureView::Error(e))) => m@ == e,
                _ => false,
            },
    {
        match self.try_tokenize() {
            Ok(v) => Ok(v),
            Err(Failure::Error(m)) => Err(m),
            Err(Failure::Panic(_)) => Err(String::new()),
        }
    }
}

} // verus!

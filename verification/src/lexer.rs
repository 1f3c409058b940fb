//! The tokenizer.
//!
//! Source text is processed one physical line at a time ('\n' delimits
//! lines; a '\r' just before the '\n' is not part of the line). Within a
//! line, whitespace is skipped and the longest prefix of the first matching
//! category wins, the categories being tried in this fixed priority order:
//! identifier, number, number starting with '.', string literal, character
//! literal, line comment, block comment (greedy to the last `*/` on the
//! line), and finally a single-character symbol. The single-character
//! fallback means tokenization never fails. Each token records the 1-based
//! line on which it starts.

use vstd::prelude::*;
use vstd::string::StrSliceExecFns;

verus! {

// ---------------------------------------------------------------------------
// Character classes
// ---------------------------------------------------------------------------

pub open spec fn is_ws(c: char) -> bool {
    c == ' ' || c == '\t' || c == '\r' || c == '\n'
}

pub open spec fn is_ident_start(c: char) -> bool {
    ('a' as u32 <= c as u32 && c as u32 <= 'z' as u32)
    || ('A' as u32 <= c as u32 && c as u32 <= 'Z' as u32)
    || c == '_'
}

pub open spec fn is_digit(c: char) -> bool {
    '0' as u32 <= c as u32 && c as u32 <= '9' as u32
}

pub open spec fn is_word(c: char) -> bool {
    is_ident_start(c) || is_digit(c)
}

pub open spec fn is_num_word(c: char) -> bool {
    is_word(c) || c == '\''
}

pub(crate) fn ws_char(c: char) -> (r: bool)
    ensures
        r == is_ws(c),
{
    c == ' ' || c == '\t' || c == '\r' || c == '\n'
}

pub(crate) fn ident_start_char(c: char) -> (r: bool)
    ensures
        r == is_ident_start(c),
{
    ('a' as u32 <= c as u32 && c as u32 <= 'z' as u32)
    || ('A' as u32 <= c as u32 && c as u32 <= 'Z' as u32)
    || c == '_'
}

fn digit_char(c: char) -> (r: bool)
    ensures
        r == is_digit(c),
{
    '0' as u32 <= c as u32 && c as u32 <= '9' as u32
}

fn word_char(c: char) -> (r: bool)
    ensures
        r == is_word(c),
{
    ident_start_char(c) || digit_char(c)
}

fn num_word_char(c: char) -> (r: bool)
    ensures
        r == is_num_word(c),
{
    word_char(c) || c == '\''
}

// ---------------------------------------------------------------------------
// Line boundaries
// ---------------------------------------------------------------------------

/// Position of the first '\n' at or after `i`, or the length of `s`.
pub open spec fn next_newline(s: Seq<char>, i: int) -> int
    decreases s.len() - i,
{
    if !(0 <= i < s.len()) {
        s.len() as int
    } else if s[i] == '\n' {
        i
    } else {
        next_newline(s, i + 1)
    }
}

pub proof fn lemma_next_newline(s: Seq<char>, i: int)
    requires
        0 <= i <= s.len(),
    ensures
        i <= next_newline(s, i) <= s.len(),
        forall|m: int| i <= m < next_newline(s, i) ==> #[trigger] s[m] != '\n',
        next_newline(s, i) < s.len() ==> s[next_newline(s, i)] == '\n',
    decreases s.len() - i,
{
    if i < s.len() && s[i] != '\n' {
        lemma_next_newline(s, i + 1);
    }
}

/// End of the stretch of the current line that tokens may occupy: up to the
/// next '\n', with a '\r' immediately before that '\n' excluded.
pub open spec fn line_end(s: Seq<char>, i: int) -> int {
    let e = next_newline(s, i);
    if e < s.len() && i < e && s[e - 1] == '\r' {
        e - 1
    } else {
        e
    }
}

// ---------------------------------------------------------------------------
// Token categories: each yields the length of its match at a position, or 0
// ---------------------------------------------------------------------------

/// Number of consecutive word characters starting at `i`, up to `end`.
pub open spec fn word_run(s: Seq<char>, i: int, end: int) -> int
    decreases end - i,
{
    if 0 <= i < end && end <= s.len() && is_word(s[i]) {
        1 + word_run(s, i + 1, end)
    } else {
        0
    }
}

pub proof fn lemma_word_run_bounds(s: Seq<char>, i: int, end: int)
    ensures
        0 <= word_run(s, i, end),
        i <= end ==> i + word_run(s, i, end) <= end,
    decreases end - i,
{
    if 0 <= i < end && end <= s.len() && is_word(s[i]) {
        lemma_word_run_bounds(s, i + 1, end);
    }
}

/// Number of consecutive word-or-apostrophe characters starting at `i`.
pub open spec fn num_word_run(s: Seq<char>, i: int, end: int) -> int
    decreases end - i,
{
    if 0 <= i < end && end <= s.len() && is_num_word(s[i]) {
        1 + num_word_run(s, i + 1, end)
    } else {
        0
    }
}

pub proof fn lemma_num_word_run_bounds(s: Seq<char>, i: int, end: int)
    ensures
        0 <= num_word_run(s, i, end),
        i <= end ==> i + num_word_run(s, i, end) <= end,
    decreases end - i,
{
    if 0 <= i < end && end <= s.len() && is_num_word(s[i]) {
        lemma_num_word_run_bounds(s, i + 1, end);
    }
}

/// Scans a quoted literal's body from `i`: a backslash escapes the next
/// character. Returns the position just past the closing quote `q`, or None
/// if the literal does not close before `end`.
pub open spec fn quote_close(s: Seq<char>, i: int, end: int, q: char) -> Option<int>
    decreases end - i,
{
    if !(0 <= i < end && end <= s.len()) {
        None
    } else if s[i] == q {
        Some(i + 1)
    } else if s[i] == '\\' {
        if i + 1 < end {
            quote_close(s, i + 2, end, q)
        } else {
            None
        }
    } else {
        quote_close(s, i + 1, end, q)
    }
}

pub proof fn lemma_quote_close_bounds(s: Seq<char>, i: int, end: int, q: char)
    ensures
        quote_close(s, i, end, q) is Some ==> i < quote_close(s, i, end, q)->0 <= end,
    decreases end - i,
{
    if 0 <= i < end && end <= s.len() && s[i] != q {
        if s[i] == '\\' {
            if i + 1 < end {
                lemma_quote_close_bounds(s, i + 2, end, q);
            }
        } else {
            lemma_quote_close_bounds(s, i + 1, end, q);
        }
    }
}

/// Position of the last `*/` whose characters lie in `[lo, hi)`, or None.
pub open spec fn last_comment_close(s: Seq<char>, lo: int, hi: int) -> Option<int>
    decreases hi - lo,
{
    if !(0 <= lo && lo + 2 <= hi && hi <= s.len()) {
        None
    } else if s[hi - 2] == '*' && s[hi - 1] == '/' {
        Some(hi - 2)
    } else {
        last_comment_close(s, lo, hi - 1)
    }
}

pub proof fn lemma_last_comment_close_bounds(s: Seq<char>, lo: int, hi: int)
    ensures
        last_comment_close(s, lo, hi) is Some ==> {
            let j = last_comment_close(s, lo, hi)->0;
            lo <= j && j + 2 <= hi
        },
    decreases hi - lo,
{
    if 0 <= lo && lo + 2 <= hi && hi <= s.len() {
        if !(s[hi - 2] == '*' && s[hi - 1] == '/') {
            lemma_last_comment_close_bounds(s, lo, hi - 1);
        }
    }
}

/// Identifier or keyword: a letter or underscore, then word characters.
pub open spec fn ident_len(s: Seq<char>, i: int, end: int) -> int {
    if 0 <= i < end && end <= s.len() && is_ident_start(s[i]) {
        1 + word_run(s, i + 1, end)
    } else {
        0
    }
}

/// Number starting with a digit: word characters and apostrophes, then
/// optionally a '.' and another such run.
pub open spec fn number_len(s: Seq<char>, i: int, end: int) -> int {
    if 0 <= i < end && end <= s.len() && is_digit(s[i]) {
        let a = 1 + num_word_run(s, i + 1, end);
        if i + a < end && s[i + a] == '.' {
            a + 1 + num_word_run(s, i + a + 1, end)
        } else {
            a
        }
    } else {
        0
    }
}

/// Number starting with '.': a '.' then a digit and a word/apostrophe run.
pub open spec fn dot_number_len(s: Seq<char>, i: int, end: int) -> int {
    if 0 <= i && i + 1 < end && end <= s.len() && s[i] == '.' && is_digit(s[i + 1]) {
        2 + num_word_run(s, i + 2, end)
    } else {
        0
    }
}

/// String or character literal delimited by `q`, closing on the same line.
pub open spec fn quoted_len(s: Seq<char>, i: int, end: int, q: char) -> int {
    if 0 <= i < end && end <= s.len() && s[i] == q {
        match quote_close(s, i + 1, end, q) {
            Some(p) => p - i,
            None => 0,
        }
    } else {
        0
    }
}

/// Line comment: `//` through the end of the line.
pub open spec fn line_comment_len(s: Seq<char>, i: int, end: int) -> int {
    if 0 <= i && i + 1 < end && end <= s.len() && s[i] == '/' && s[i + 1] == '/' {
        end - i
    } else {
        0
    }
}

/// Block comment: `/*` through the last `*/` on the same line.
pub open spec fn block_comment_len(s: Seq<char>, i: int, end: int) -> int {
    if 0 <= i && i + 1 < end && end <= s.len() && s[i] == '/' && s[i + 1] == '*' {
        match last_comment_close(s, i + 2, end) {
            Some(j) => j + 2 - i,
            None => 0,
        }
    } else {
        0
    }
}

/// Length of the token starting at `i`: the first category in priority
/// order that matches a non-empty prefix wins; a lone character is always
/// consumable, so the result is at least 1.
pub open spec fn token_len(s: Seq<char>, i: int, end: int) -> int {
    if ident_len(s, i, end) != 0 {
        ident_len(s, i, end)
    } else if number_len(s, i, end) != 0 {
        number_len(s, i, end)
    } else if dot_number_len(s, i, end) != 0 {
        dot_number_len(s, i, end)
    } else if quoted_len(s, i, end, '"') != 0 {
        quoted_len(s, i, end, '"')
    } else if quoted_len(s, i, end, '\'') != 0 {
        quoted_len(s, i, end, '\'')
    } else if line_comment_len(s, i, end) != 0 {
        line_comment_len(s, i, end)
    } else if block_comment_len(s, i, end) != 0 {
        block_comment_len(s, i, end)
    } else {
        1
    }
}

pub proof fn lemma_token_len_bounds(s: Seq<char>, i: int, end: int)
    requires
        0 <= i < end <= s.len(),
    ensures
        1 <= token_len(s, i, end),
        i + token_len(s, i, end) <= end,
{
    lemma_word_run_bounds(s, i + 1, end);
    lemma_num_word_run_bounds(s, i + 1, end);
    if 0 <= i < end && is_digit(s[i]) {
        let a = 1 + num_word_run(s, i + 1, end);
        if i + a < end && s[i + a] == '.' {
            lemma_num_word_run_bounds(s, i + a + 1, end);
        }
    }
    if i + 1 < end && s[i] == '.' && is_digit(s[i + 1]) {
        lemma_num_word_run_bounds(s, i + 2, end);
    }
    lemma_quote_close_bounds(s, i + 1, end, '"');
    lemma_quote_close_bounds(s, i + 1, end, '\'');
    lemma_last_comment_close_bounds(s, i + 2, end);
}

// ---------------------------------------------------------------------------
// Tokens and the token stream
// ---------------------------------------------------------------------------

/// The mathematical content of a token: the characters of its text and the
/// 1-based line on which it starts.
#[verifier::ext_equal]
pub ghost struct SpecToken {
    pub value: Seq<char>,
    pub line: nat,
}

/// A token: the exact substring of the source that it covers (never empty)
/// and the 1-based line number where it starts.
#[derive(Debug, Clone)]
pub struct Token {
    pub value: String,
    pub line: usize,
}

impl View for Token {
    type V = SpecToken;

    open spec fn view(&self) -> SpecToken {
        SpecToken { value: self.value@, line: self.line as nat }
    }
}

/// Tokens are equal when their texts are equal: the line number is
/// metadata, not identity, so a pattern token and an input token on
/// different lines compare by content alone.
impl PartialEq for Token {
    fn eq(&self, other: &Token) -> (r: bool) {
        self.value == other.value
    }
}

impl vstd::std_specs::cmp::PartialEqSpecImpl for Token {
    open spec fn obeys_eq_spec() -> bool {
        true
    }

    open spec fn eq_spec(&self, other: &Token) -> bool {
        self.value@ == other.value@
    }
}

pub open spec fn token_views(ts: Seq<Token>) -> Seq<SpecToken> {
    ts.map_values(|t: Token| t@)
}

pub open spec fn wf_token(t: SpecToken) -> bool {
    t.value.len() > 0
}

pub open spec fn wf_tokens(ts: Seq<SpecToken>) -> bool {
    forall|k: int| 0 <= k < ts.len() ==> wf_token(#[trigger] ts[k])
}

/// The token stream of the text from position `i` on, with `line_no` the
/// line number at `i`. Whitespace separates tokens; '\n' advances the line
/// count; every other character starts a token of length `token_len`.
pub open spec fn spec_lex_from(s: Seq<char>, i: int, line_no: nat) -> Seq<SpecToken>
    decreases s.len() - i,
{
    if !(0 <= i < s.len()) {
        Seq::<SpecToken>::empty()
    } else if s[i] == '\n' {
        spec_lex_from(s, i + 1, line_no + 1)
    } else if is_ws(s[i]) {
        spec_lex_from(s, i + 1, line_no)
    } else {
        proof {
            lemma_next_newline(s, i);
            lemma_token_len_bounds(s, i, line_end(s, i));
        }
        let end = line_end(s, i);
        let l = token_len(s, i, end);
        seq![SpecToken { value: s.subrange(i, i + l), line: line_no }]
            + spec_lex_from(s, i + l, line_no)
    }
}

/// The token stream of a whole text, lines numbered from 1.
pub open spec fn spec_lex(s: Seq<char>) -> Seq<SpecToken> {
    spec_lex_from(s, 0, 1)
}

// ---------------------------------------------------------------------------
// Executable scanning
// ---------------------------------------------------------------------------

pub(crate) fn chars_of(text: &str) -> (v: Vec<char>)
    ensures
        v@ == text@,
{
    let n: usize = text.unicode_len();
    let mut v: Vec<char> = Vec::new();
    let mut i: usize = 0;
    while i < n
        invariant
            n == text@.len(),
            i <= n,
            v@ == text@.subrange(0, i as int),
        decreases n - i,
    {
        v.push(text.get_char(i));
        i += 1;
        proof {
            assert(v@ =~= text@.subrange(0, i as int));
        }
    }
    proof {
        assert(v@ =~= text@);
    }
    v
}

pub(crate) fn next_newline_at(v: &Vec<char>, i: usize) -> (e: usize)
    requires
        i <= v@.len(),
    ensures
        e as int == next_newline(v@, i as int),
        i <= e <= v@.len(),
{
    let n: usize = v.len();
    let mut j: usize = i;
    while j < n && v[j] != '\n'
        invariant
            i <= j <= n,
            n == v@.len(),
            next_newline(v@, i as int) == next_newline(v@, j as int),
        decreases n - j,
    {
        j += 1;
    }
    j
}

fn line_end_at(v: &Vec<char>, i: usize) -> (e: usize)
    requires
        i <= v@.len(),
    ensures
        e as int == line_end(v@, i as int),
        e <= v@.len(),
{
    let nl: usize = next_newline_at(v, i);
    let n: usize = v.len();
    if nl < n && i < nl && v[nl - 1] == '\r' {
        nl - 1
    } else {
        nl
    }
}

fn word_run_at(v: &Vec<char>, i: usize, end: usize) -> (r: usize)
    requires
        i <= end <= v@.len(),
    ensures
        r as int == word_run(v@, i as int, end as int),
        i + r <= end,
{
    let mut j: usize = i;
    while j < end && word_char(v[j])
        invariant
            i <= j <= end,
            end <= v@.len(),
            word_run(v@, i as int, end as int) == j - i + word_run(v@, j as int, end as int),
        decreases end - j,
    {
        j += 1;
    }
    j - i
}

fn num_word_run_at(v: &Vec<char>, i: usize, end: usize) -> (r: usize)
    requires
        i <= end <= v@.len(),
    ensures
        r as int == num_word_run(v@, i as int, end as int),
        i + r <= end,
{
    let mut j: usize = i;
    while j < end && num_word_char(v[j])
        invariant
            i <= j <= end,
            end <= v@.len(),
            num_word_run(v@, i as int, end as int)
                == j - i + num_word_run(v@, j as int, end as int),
        decreases end - j,
    {
        j += 1;
    }
    j - i
}

fn quote_close_at(v: &Vec<char>, i: usize, end: usize, q: char) -> (r: Option<usize>)
    requires
        i <= end <= v@.len(),
    ensures
        match r {
            Some(p) => quote_close(v@, i as int, end as int, q) == Some(p as int)
                && i < p <= end,
            None => quote_close(v@, i as int, end as int, q) is None,
        },
{
    let mut j: usize = i;
    loop
        invariant
            i <= j <= end,
            end <= v@.len(),
            quote_close(v@, i as int, end as int, q) == quote_close(v@, j as int, end as int, q),
        decreases end - j,
    {
        if j >= end {
            return None;
        }
        let c = v[j];
        if c == q {
            return Some(j + 1);
        }
        if c == '\\' {
            if j + 1 < end {
                j += 2;
            } else {
                return None;
            }
        } else {
            j += 1;
        }
    }
}

fn last_comment_close_at(v: &Vec<char>, lo: usize, hi: usize) -> (r: Option<usize>)
    requires
        lo <= hi <= v@.len(),
    ensures
        match r {
            Some(j) => last_comment_close(v@, lo as int, hi as int) == Some(j as int)
                && lo <= j && j + 2 <= hi,
            None => last_comment_close(v@, lo as int, hi as int) is None,
        },
{
    let mut h: usize = hi;
    loop
        invariant
            lo <= h <= hi,
            hi <= v@.len(),
            last_comment_close(v@, lo as int, hi as int)
                == last_comment_close(v@, lo as int, h as int),
        decreases h,
    {
        if h - lo < 2 {
            return None;
        }
        if v[h - 2] == '*' && v[h - 1] == '/' {
            return Some(h - 2);
        }
        h -= 1;
    }
}

fn token_len_at(v: &Vec<char>, i: usize, end: usize) -> (l: usize)
    requires
        i < end <= v@.len(),
    ensures
        l as int == token_len(v@, i as int, end as int),
        1 <= l,
        i + l <= end,
{
    proof {
        lemma_token_len_bounds(v@, i as int, end as int);
    }
    let c = v[i];
    if ident_start_char(c) {
        let r: usize = word_run_at(v, i + 1, end);
        1 + r
    } else if digit_char(c) {
        let a: usize = 1 + num_word_run_at(v, i + 1, end);
        if i + a < end && v[i + a] == '.' {
            let b: usize = num_word_run_at(v, i + a + 1, end);
            a + 1 + b
        } else {
            a
        }
    } else if c == '.' && i + 1 < end && digit_char(v[i + 1]) {
        let b: usize = num_word_run_at(v, i + 2, end);
        2 + b
    } else if c == '"' {
        match quote_close_at(v, i + 1, end, '"') {
            Some(p) => p - i,
            None => 1,
        }
    } else if c == '\'' {
        match quote_close_at(v, i + 1, end, '\'') {
            Some(p) => p - i,
            None => 1,
        }
    } else if c == '/' && i + 1 < end && v[i + 1] == '/' {
        end - i
    } else if c == '/' && i + 1 < end && v[i + 1] == '*' {
        match last_comment_close_at(v, i + 2, end) {
            Some(j) => j + 2 - i,
            None => 1,
        }
    } else {
        1
    }
}

/// Convert the given text into its list of tokens.
pub fn lex(text: &str) -> (r: Vec<Token>)
    requires
        text@.len() < usize::MAX,
    ensures
        token_views(r@) == spec_lex(text@),
        wf_tokens(token_views(r@)),
{
    let v = chars_of(text);
    let n: usize = v.len();
    let mut out: Vec<Token> = Vec::new();
    let mut p: usize = 0;
    let mut line_no: usize = 1;
    while p < n
        invariant
            v@ == text@,
            n == v@.len(),
            n < usize::MAX,
            p <= n,
            1 <= line_no <= p + 1,
            spec_lex(text@) == token_views(out@) + spec_lex_from(text@, p as int, line_no as nat),
            wf_tokens(token_views(out@)),
        decreases n - p,
    {
        let c = v[p];
        if c == '\n' {
            line_no += 1;
            p += 1;
        } else if ws_char(c) {
            p += 1;
        } else {
            proof {
                lemma_next_newline(text@, p as int);
            }
            let end: usize = line_end_at(&v, p);
            let l: usize = token_len_at(&v, p, end);
            let value = text.substring_char(p, p + l).to_owned();
            let ghost prev = out@;
            out.push(Token { value, line: line_no });
            proof {
                let t = SpecToken {
                    value: text@.subrange(p as int, p as int + l as int),
                    line: line_no as nat,
                };
                assert(token_views(out@) =~= token_views(prev) + seq![t]);
                assert(spec_lex_from(text@, p as int, line_no as nat)
                    == seq![t] + spec_lex_from(text@, p as int + l as int, line_no as nat));
                assert(token_views(prev) + (seq![t]
                    + spec_lex_from(text@, p as int + l as int, line_no as nat))
                    =~= (token_views(prev) + seq![t])
                        + spec_lex_from(text@, p as int + l as int, line_no as nat));
            }
            p += l;
        }
    }
    proof {
        assert(token_views(out@) + spec_lex_from(text@, p as int, line_no as nat)
            =~= token_views(out@));
    }
    out
}

// ---------------------------------------------------------------------------
// Laws
// ---------------------------------------------------------------------------

/// Tokenizing an empty or all-whitespace text yields an empty token stream.
pub proof fn lemma_lex_all_whitespace(text: Seq<char>)
    requires
        forall|k: int| 0 <= k < text.len() ==> is_ws(#[trigger] text[k]),
    ensures
        spec_lex(text) == Seq::<SpecToken>::empty(),
{
    lemma_lex_from_all_whitespace(text, 0, 1);
}

proof fn lemma_lex_from_all_whitespace(text: Seq<char>, i: int, line_no: nat)
    requires
        forall|k: int| 0 <= k < text.len() ==> is_ws(#[trigger] text[k]),
    ensures
        spec_lex_from(text, i, line_no) == Seq::<SpecToken>::empty(),
    decreases text.len() - i,
{
    if 0 <= i < text.len() {
        if text[i] == '\n' {
            lemma_lex_from_all_whitespace(text, i + 1, line_no + 1);
        } else {
            lemma_lex_from_all_whitespace(text, i + 1, line_no);
        }
    }
}

// ---------------------------------------------------------------------------
// Re-tokenization: on text free of string, character and comment syntax,
// the token texts, joined by single spaces, tokenize to the same texts
// ---------------------------------------------------------------------------

/// A character that can open neither a string or character literal nor a
/// comment.
pub open spec fn plain_char(c: char) -> bool {
    c != '"' && c != '\'' && c != '/'
}

/// The texts of a token stream, in order.
pub open spec fn token_texts(ts: Seq<SpecToken>) -> Seq<Seq<char>> {
    ts.map_values(|t: SpecToken| t.value)
}

/// The given texts joined by single spaces.
pub open spec fn join_with_spaces(vs: Seq<Seq<char>>) -> Seq<char>
    decreases vs.len(),
{
    if vs.len() == 0 {
        Seq::<char>::empty()
    } else if vs.len() == 1 {
        vs[0]
    } else {
        vs[0] + seq![' '] + join_with_spaces(vs.drop_first())
    }
}

pub open spec fn ident_shaped(v: Seq<char>) -> bool {
    v.len() >= 1 && is_ident_start(v[0]) && forall|k: int|
        1 <= k < v.len() ==> is_word(#[trigger] v[k])
}

/// The body of a digit-led number: word characters and apostrophes up to
/// `j`, and `j` is either the end or a '.' followed by more of the same.
pub open spec fn number_body_at(v: Seq<char>, j: int) -> bool {
    1 <= j <= v.len() && (forall|k: int| 1 <= k < j ==> is_num_word(#[trigger] v[k])) && (j
        == v.len() || (v[j] == '.' && forall|k: int|
        j < k < v.len() ==> is_num_word(#[trigger] v[k])))
}

pub open spec fn number_shaped(v: Seq<char>) -> bool {
    v.len() >= 1 && is_digit(v[0]) && exists|j: int| #[trigger] number_body_at(v, j)
}

pub open spec fn dot_number_shaped(v: Seq<char>) -> bool {
    v.len() >= 2 && v[0] == '.' && is_digit(v[1]) && forall|k: int|
        2 <= k < v.len() ==> is_num_word(#[trigger] v[k])
}

pub open spec fn symbol_shaped(v: Seq<char>) -> bool {
    v.len() == 1 && !is_ws(v[0]) && !is_ident_start(v[0]) && !is_digit(v[0]) && plain_char(v[0])
}

/// Every token text of a plain text has one of these four shapes.
pub open spec fn token_shaped(v: Seq<char>) -> bool {
    ident_shaped(v) || number_shaped(v) || dot_number_shaped(v) || symbol_shaped(v)
}

pub open spec fn all_shaped(ts: Seq<SpecToken>) -> bool {
    forall|k: int| 0 <= k < ts.len() ==> token_shaped((#[trigger] ts[k]).value)
}

proof fn lemma_word_run_chars(s: Seq<char>, j: int, end: int)
    requires
        0 <= j <= end <= s.len(),
    ensures
        forall|k: int| j <= k < j + word_run(s, j, end) ==> is_word(#[trigger] s[k]),
    decreases end - j,
{
    lemma_word_run_bounds(s, j, end);
    if 0 <= j < end && is_word(s[j]) {
        lemma_word_run_chars(s, j + 1, end);
        lemma_word_run_bounds(s, j + 1, end);
    }
}

proof fn lemma_num_word_run_chars(s: Seq<char>, j: int, end: int)
    requires
        0 <= j <= end <= s.len(),
    ensures
        forall|k: int| j <= k < j + num_word_run(s, j, end) ==> is_num_word(#[trigger] s[k]),
    decreases end - j,
{
    lemma_num_word_run_bounds(s, j, end);
    if 0 <= j < end && is_num_word(s[j]) {
        lemma_num_word_run_chars(s, j + 1, end);
        lemma_num_word_run_bounds(s, j + 1, end);
    }
}

proof fn lemma_word_run_exact(s: Seq<char>, j: int, end: int, m: int)
    requires
        0 <= j <= m <= end <= s.len(),
        forall|k: int| j <= k < m ==> is_word(#[trigger] s[k]),
        m == end || !is_word(s[m]),
    ensures
        word_run(s, j, end) == m - j,
    decreases m - j,
{
    if j < m {
        lemma_word_run_exact(s, j + 1, end, m);
    }
}

proof fn lemma_num_word_run_exact(s: Seq<char>, j: int, end: int, m: int)
    requires
        0 <= j <= m <= end <= s.len(),
        forall|k: int| j <= k < m ==> is_num_word(#[trigger] s[k]),
        m == end || !is_num_word(s[m]),
    ensures
        num_word_run(s, j, end) == m - j,
    decreases m - j,
{
    if j < m {
        lemma_num_word_run_exact(s, j + 1, end, m);
    }
}

proof fn lemma_token_shape(s: Seq<char>, i: int, end: int)
    requires
        0 <= i < end <= s.len(),
        !is_ws(s[i]),
        plain_char(s[i]),
    ensures
        token_shaped(s.subrange(i, i + token_len(s, i, end))),
{
    lemma_token_len_bounds(s, i, end);
    let l = token_len(s, i, end);
    let v = s.subrange(i, i + l);
    if is_ident_start(s[i]) {
        lemma_word_run_bounds(s, i + 1, end);
        lemma_word_run_chars(s, i + 1, end);
        assert(l == 1 + word_run(s, i + 1, end));
        assert forall|k: int| 1 <= k < v.len() implies is_word(#[trigger] v[k]) by {
            assert(v[k] == s[i + k]);
        }
        assert(ident_shaped(v));
    } else if is_digit(s[i]) {
        lemma_num_word_run_bounds(s, i + 1, end);
        lemma_num_word_run_chars(s, i + 1, end);
        let a = 1 + num_word_run(s, i + 1, end);
        assert(ident_len(s, i, end) == 0);
        if i + a < end && s[i + a] == '.' {
            lemma_num_word_run_bounds(s, i + a + 1, end);
            lemma_num_word_run_chars(s, i + a + 1, end);
            assert(l == a + 1 + num_word_run(s, i + a + 1, end));
            assert forall|k: int| 1 <= k < a implies is_num_word(#[trigger] v[k]) by {
                assert(v[k] == s[i + k]);
            }
            assert forall|k: int| a < k < v.len() implies is_num_word(#[trigger] v[k]) by {
                assert(v[k] == s[i + k]);
            }
            assert(v[a] == s[i + a]);
            assert(number_body_at(v, a));
            assert(number_shaped(v));
        } else {
            assert(l == a);
            assert forall|k: int| 1 <= k < a implies is_num_word(#[trigger] v[k]) by {
                assert(v[k] == s[i + k]);
            }
            assert(number_body_at(v, a));
            assert(number_shaped(v));
        }
    } else if i + 1 < end && s[i] == '.' && is_digit(s[i + 1]) {
        lemma_num_word_run_bounds(s, i + 2, end);
        lemma_num_word_run_chars(s, i + 2, end);
        assert(l == 2 + num_word_run(s, i + 2, end));
        assert forall|k: int| 2 <= k < v.len() implies is_num_word(#[trigger] v[k]) by {
            assert(v[k] == s[i + k]);
        }
        assert(v[0] == s[i]);
        assert(v[1] == s[i + 1]);
        assert(dot_number_shaped(v));
    } else {
        assert(l == 1);
        assert(v[0] == s[i]);
        assert(symbol_shaped(v));
    }
}

/// Every token of a text without string, character or comment syntax has
/// one of the four plain shapes.
pub proof fn lemma_lex_from_shapes(s: Seq<char>, i: int, line_no: nat)
    requires
        forall|k: int| 0 <= k < s.len() ==> plain_char(#[trigger] s[k]),
    ensures
        all_shaped(spec_lex_from(s, i, line_no)),
    decreases s.len() - i,
{
    if 0 <= i < s.len() {
        if s[i] == '\n' {
            lemma_lex_from_shapes(s, i + 1, line_no + 1);
        } else if is_ws(s[i]) {
            lemma_lex_from_shapes(s, i + 1, line_no);
        } else {
            lemma_next_newline(s, i);
            let end = line_end(s, i);
            lemma_token_len_bounds(s, i, end);
            lemma_token_shape(s, i, end);
            let l = token_len(s, i, end);
            lemma_lex_from_shapes(s, i + l, line_no);
            assert forall|k: int| 0 <= k < spec_lex_from(s, i, line_no).len() implies token_shaped(
                (#[trigger] spec_lex_from(s, i, line_no)[k]).value) by {
                if k > 0 {
                    assert(spec_lex_from(s, i, line_no)[k] == spec_lex_from(s, i + l, line_no)[k
                        - 1]);
                }
            }
        }
    }
}

proof fn lemma_shaped_no_ws(v: Seq<char>)
    requires
        token_shaped(v),
    ensures
        forall|k: int| 0 <= k < v.len() ==> !is_ws(#[trigger] v[k]),
{
    if number_shaped(v) {
        let j = choose|j: int| number_body_at(v, j);
        assert forall|k: int| 0 <= k < v.len() implies !is_ws(#[trigger] v[k]) by {
            if k == 0 {
            } else if k < j {
            } else if k == j && j < v.len() {
            } else {
            }
        }
    }
}

proof fn lemma_join_no_newline(vs: Seq<Seq<char>>)
    requires
        forall|k: int| 0 <= k < vs.len() ==> token_shaped(#[trigger] vs[k]),
    ensures
        forall|m: int| 0 <= m < join_with_spaces(vs).len() ==> #[trigger] join_with_spaces(
            vs)[m] != '\n',
    decreases vs.len(),
{
    if vs.len() == 1 {
        lemma_shaped_no_ws(vs[0]);
    } else if vs.len() > 1 {
        lemma_shaped_no_ws(vs[0]);
        lemma_join_no_newline(vs.drop_first());
        let v0 = vs[0];
        let rest = join_with_spaces(vs.drop_first());
        assert forall|m: int| 0 <= m < join_with_spaces(vs).len() implies #[trigger]
            join_with_spaces(vs)[m] != '\n' by {
            if m < v0.len() {
                assert(join_with_spaces(vs)[m] == v0[m]);
            } else if m == v0.len() {
                assert(join_with_spaces(vs)[m] == ' ');
            } else {
                assert(join_with_spaces(vs)[m] == rest[m - v0.len() - 1]);
            }
        }
    }
}

proof fn lemma_next_newline_none(s: Seq<char>, p: int)
    requires
        0 <= p <= s.len(),
        forall|m: int| 0 <= m < s.len() ==> #[trigger] s[m] != '\n',
    ensures
        next_newline(s, p) == s.len(),
    decreases s.len() - p,
{
    if p < s.len() {
        lemma_next_newline_none(s, p + 1);
    }
}

proof fn lemma_head_token_len(s: Seq<char>, p: int, vlen: int, end: int)
    requires
        0 <= p,
        1 <= vlen,
        p + vlen <= end <= s.len(),
        token_shaped(s.subrange(p, p + vlen)),
        p + vlen == end || s[p + vlen] == ' ',
    ensures
        token_len(s, p, end) == vlen,
{
    let v = s.subrange(p, p + vlen);
    assert forall|k: int| 0 <= k < vlen implies #[trigger] v[k] == s[p + k] by {}
    if ident_shaped(v) {
        assert forall|k: int| p + 1 <= k < p + vlen implies is_word(#[trigger] s[k]) by {
            assert(s[k] == v[k - p]);
        }
        lemma_word_run_exact(s, p + 1, end, p + vlen);
        assert(ident_len(s, p, end) == vlen);
    } else if number_shaped(v) {
        let j = choose|j: int| number_body_at(v, j);
        assert(ident_len(s, p, end) == 0);
        assert forall|k: int| p + 1 <= k < p + j implies is_num_word(#[trigger] s[k]) by {
            assert(s[k] == v[k - p]);
        }
        if j == vlen {
            lemma_num_word_run_exact(s, p + 1, end, p + j);
            assert(number_len(s, p, end) == vlen);
        } else {
            assert(s[p + j] == v[j]);
            lemma_num_word_run_exact(s, p + 1, end, p + j);
            assert forall|k: int| p + j + 1 <= k < p + vlen implies is_num_word(
                #[trigger] s[k]) by {
                assert(s[k] == v[k - p]);
            }
            lemma_num_word_run_exact(s, p + j + 1, end, p + vlen);
            assert(number_len(s, p, end) == vlen);
        }
        assert(token_len(s, p, end) == vlen);
    } else if dot_number_shaped(v) {
        assert(ident_len(s, p, end) == 0);
        assert(number_len(s, p, end) == 0);
        assert(s[p + 1] == v[1]);
        assert forall|k: int| p + 2 <= k < p + vlen implies is_num_word(#[trigger] s[k]) by {
            assert(s[k] == v[k - p]);
        }
        lemma_num_word_run_exact(s, p + 2, end, p + vlen);
        assert(dot_number_len(s, p, end) == vlen);
        assert(token_len(s, p, end) == vlen);
    } else {
        assert(symbol_shaped(v));
        assert(vlen == 1);
        assert(s[p] == v[0]);
        assert(ident_len(s, p, end) == 0);
        assert(number_len(s, p, end) == 0);
        assert(dot_number_len(s, p, end) == 0);
        assert(quoted_len(s, p, end, '"') == 0);
        assert(quoted_len(s, p, end, '\'') == 0);
        assert(line_comment_len(s, p, end) == 0);
        assert(block_comment_len(s, p, end) == 0);
        assert(token_len(s, p, end) == 1);
    }
}

proof fn lemma_lex_join_from(s: Seq<char>, p: int, vs: Seq<Seq<char>>, line_no: nat)
    requires
        0 <= p <= s.len(),
        forall|k: int| 0 <= k < vs.len() ==> token_shaped(#[trigger] vs[k]),
        s.subrange(p, s.len() as int) == join_with_spaces(vs),
        forall|m: int| 0 <= m < s.len() ==> #[trigger] s[m] != '\n',
    ensures
        token_texts(spec_lex_from(s, p, line_no)) == vs,
    decreases vs.len(),
{
    if vs.len() == 0 {
        assert(s.subrange(p, s.len() as int).len() == 0);
        assert(p == s.len());
        assert(token_texts(spec_lex_from(s, p, line_no)) =~= vs);
    } else {
        let v0 = vs[0];
        assert(token_shaped(v0));
        assert(v0.len() >= 1);
        let l = v0.len() as int;
        let suffix = s.subrange(p, s.len() as int);
        if vs.len() == 1 {
            assert(suffix == v0);
            assert(s.len() - p == l);
            assert forall|k: int| 0 <= k < l implies #[trigger] s[p + k] == v0[k] by {
                assert(suffix[k] == s[p + k]);
            }
        } else {
            let rest = join_with_spaces(vs.drop_first());
            assert(suffix == vs[0] + seq![' '] + rest);
            assert(s.len() - p == l + 1 + rest.len());
            assert forall|k: int| 0 <= k < l implies #[trigger] s[p + k] == v0[k] by {
                assert(suffix[k] == s[p + k]);
                assert((vs[0] + seq![' '] + rest)[k] == v0[k]);
            }
            assert(s[p + l] == ' ') by {
                assert(suffix[l] == s[p + l]);
                assert((vs[0] + seq![' '] + rest)[l] == ' ');
            }
        }
        assert(s.subrange(p, p + l) =~= v0);
        lemma_shaped_no_ws(v0);
        assert(s[p] == v0[0]);
        assert(!is_ws(s[p]));
        lemma_next_newline_none(s, p);
        assert(line_end(s, p) == s.len());
        lemma_head_token_len(s, p, l, s.len() as int);
        assert(token_len(s, p, line_end(s, p)) == l);
        let tok = SpecToken { value: s.subrange(p, p + l), line: line_no };
        assert(spec_lex_from(s, p, line_no) == seq![tok] + spec_lex_from(s, p + l, line_no));
        if vs.len() == 1 {
            assert(p + l == s.len());
            assert(spec_lex_from(s, p + l, line_no) == Seq::<SpecToken>::empty());
            assert(token_texts(spec_lex_from(s, p, line_no)) =~= vs);
        } else {
            assert(s[p + l] == ' ');
            assert(p + l < s.len());
            assert(spec_lex_from(s, p + l, line_no) == spec_lex_from(s, p + l + 1, line_no));
            let tail = vs.drop_first();
            let rest = join_with_spaces(tail);
            assert forall|k: int| 0 <= k < tail.len() implies token_shaped(
                #[trigger] tail[k]) by {
                assert(tail[k] == vs[k + 1]);
            }
            assert(s.subrange(p + l + 1, s.len() as int) =~= rest) by {
                assert forall|k: int| 0 <= k < s.len() - p - l - 1 implies #[trigger] s.subrange(
                    p + l + 1, s.len() as int)[k] == rest[k] by {
                    assert(s.subrange(p + l + 1, s.len() as int)[k] == s[p + l + 1 + k]);
                    assert(s[p + l + 1 + k] == s.subrange(p, s.len() as int)[l + 1 + k]);
                    assert((vs[0] + seq![' '] + rest)[l + 1 + k] == rest[k]);
                }
            }
            lemma_lex_join_from(s, p + l + 1, tail, line_no);
            assert(token_texts(spec_lex_from(s, p, line_no)) =~= vs) by {
                let produced = spec_lex_from(s, p, line_no);
                let rest_toks = spec_lex_from(s, p + l + 1, line_no);
                assert forall|k: int| 0 <= k < produced.len() implies #[trigger] token_texts(
                    produced)[k] == vs[k] by {
                    if k == 0 {
                        assert(produced[0] == tok);
                    } else {
                        assert(produced[k] == rest_toks[k - 1]);
                        assert(token_texts(rest_toks)[k - 1] == tail[k - 1]);
                        assert(tail[k - 1] == vs[k]);
                    }
                }
            }
        }
    }
}

/// For text containing no string, character or comment syntax,
/// concatenating all token texts with single spaces and re-tokenizing
/// yields the same sequence of token texts.
pub proof fn lemma_retokenize_join(text: Seq<char>)
    requires
        forall|k: int| 0 <= k < text.len() ==> plain_char(#[trigger] text[k]),
    ensures
        token_texts(spec_lex(join_with_spaces(token_texts(spec_lex(text))))) == token_texts(
            spec_lex(text)),
{
    let vs = token_texts(spec_lex(text));
    lemma_lex_from_shapes(text, 0, 1);
    assert forall|k: int| 0 <= k < vs.len() implies token_shaped(#[trigger] vs[k]) by {
        assert(vs[k] == spec_lex(text)[k].value);
    }
    let s = join_with_spaces(vs);
    lemma_join_no_newline(vs);
    assert(s.subrange(0, s.len() as int) =~= s);
    lemma_lex_join_from(s, 0, vs, 1);
}

} // verus!

//! Splitting the text format of Paradox files into tokens.
use vstd::prelude::*;
use vstd::string::StringSliceAdditionalSpecFns;
use vstd::utf8::*;

use crate::text_util::{
    is_ascii_ws, lemma_ascii_run, str_range, lemma_after_ascii,
    parse_i64, parse_u64, spec_parse_i64, spec_parse_u64, splittable, str_eq, str_skip,
};

verus! {

broadcast use vstd::string::group_string_axioms, vstd::utf8::encode_utf8_valid_utf8;

/// A token of the text format. `Float` keeps the number's text (its digits, one `.` and maybe
/// a leading `-`), since the library computes with no floating-point numbers.
#[derive(Debug, Clone, Copy, PartialEq)]
pub enum TextToken<'a> {
    Equal,
    OpenBracket,
    CloseBracket,
    /// Used for all negative numbers
    Int(i64),
    /// Used for all positive numbers
    UInt(u64),
    Float(&'a str),
    Bool(bool),
    StringQuoted(&'a str),
    StringUnquoted(&'a str),
    /// Only in game files, `@variable` will become `Variable("variable")`
    Variable(&'a str),
    /// Only in game files, `@[expr]` will become `Expr("expr")`
    Expr(&'a str),
}

/// A [`TextToken`] with its texts as UTF-8 bytes.
pub enum TokenView {
    Equal,
    OpenBracket,
    CloseBracket,
    Int(i64),
    UInt(u64),
    Float(Seq<u8>),
    Bool(bool),
    StringQuoted(Seq<u8>),
    StringUnquoted(Seq<u8>),
    Variable(Seq<u8>),
    Expr(Seq<u8>),
}

impl<'a> View for TextToken<'a> {
    type V = TokenView;

    open spec fn view(&self) -> TokenView {
        match self {
            TextToken::Equal => TokenView::Equal,
            TextToken::OpenBracket => TokenView::OpenBracket,
            TextToken::CloseBracket => TokenView::CloseBracket,
            TextToken::Int(n) => TokenView::Int(*n),
            TextToken::UInt(n) => TokenView::UInt(*n),
            TextToken::Float(t) => TokenView::Float(t.spec_bytes()),
            TextToken::Bool(b) => TokenView::Bool(*b),
            TextToken::StringQuoted(t) => TokenView::StringQuoted(t.spec_bytes()),
            TextToken::StringUnquoted(t) => TokenView::StringUnquoted(t.spec_bytes()),
            TextToken::Variable(t) => TokenView::Variable(t.spec_bytes()),
            TextToken::Expr(t) => TokenView::Expr(t.spec_bytes()),
        }
    }
}

impl<'a> TextToken<'a> {
    pub fn is_base_scalar(&self) -> (res: bool)
        ensures
            res == (self is Int || self is UInt || self is Float || self is Bool
                || self is StringQuoted || self is StringUnquoted),
    {
        match self {
            TextToken::Int(_) | TextToken::UInt(_) | TextToken::Float(_) | TextToken::Bool(_)
            | TextToken::StringQuoted(_) | TextToken::StringUnquoted(_) => true,
            _ => false,
        }
    }

    pub fn token_type_repr(&self) -> (res: &'static str)
        ensures
            res@ == match self {
                TextToken::Equal => "="@,
                TextToken::OpenBracket => "{"@,
                TextToken::CloseBracket => "}"@,
                TextToken::Int(_) => "int"@,
                TextToken::UInt(_) => "uint"@,
                TextToken::Float(_) => "float"@,
                TextToken::Bool(_) => "bool"@,
                TextToken::StringQuoted(_) => "string_quoted"@,
                TextToken::StringUnquoted(_) => "string_unquoted"@,
                TextToken::Variable(_) => "variable"@,
                TextToken::Expr(_) => "expr"@,
            },
    {
        match self {
            TextToken::Equal => "=",
            TextToken::OpenBracket => "{",
            TextToken::CloseBracket => "}",
            TextToken::Int(_) => "int",
            TextToken::UInt(_) => "uint",
            TextToken::Float(_) => "float",
            TextToken::Bool(_) => "bool",
            TextToken::StringQuoted(_) => "string_quoted",
            TextToken::StringUnquoted(_) => "string_unquoted",
            TextToken::Variable(_) => "variable",
            TextToken::Expr(_) => "expr",
        }
    }

    /// Token equality: same kind and same number or text.
    pub fn same(&self, other: &TextToken<'a>) -> (res: bool)
        ensures
            res == (self@ == other@),
    {
        match (self, other) {
            (TextToken::Equal, TextToken::Equal) => true,
            (TextToken::OpenBracket, TextToken::OpenBracket) => true,
            (TextToken::CloseBracket, TextToken::CloseBracket) => true,
            (TextToken::Int(a), TextToken::Int(b)) => *a == *b,
            (TextToken::UInt(a), TextToken::UInt(b)) => *a == *b,
            (TextToken::Float(a), TextToken::Float(b)) => str_eq(a, b),
            (TextToken::Bool(a), TextToken::Bool(b)) => *a == *b,
            (TextToken::StringQuoted(a), TextToken::StringQuoted(b)) => str_eq(a, b),
            (TextToken::StringUnquoted(a), TextToken::StringUnquoted(b)) => str_eq(a, b),
            (TextToken::Variable(a), TextToken::Variable(b)) => str_eq(a, b),
            (TextToken::Expr(a), TextToken::Expr(b)) => str_eq(a, b),
            _ => false,
        }
    }
}

/// Number of leading ASCII whitespace bytes of `s` (what `str::trim_ascii_start` removes).
pub open spec fn ascii_ws_len(s: Seq<u8>, i: int) -> int
    decreases s.len() - i,
{
    if 0 <= i < s.len() && is_ascii_ws(s[i]) {
        ascii_ws_len(s, i + 1)
    } else {
        i
    }
}

/// A character that ends an unquoted token: `=`, `{`, `}` or ASCII whitespace.
pub open spec fn ends_token(c: u8) -> bool {
    c == 0x3d || c == 0x7b || c == 0x7d || is_ascii_ws(c)
}

/// Position of the first byte at or after `i` that ends an unquoted token.
pub open spec fn token_end(s: Seq<u8>, i: int) -> Option<int>
    decreases s.len() - i,
{
    if i < 0 || i >= s.len() {
        None
    } else if ends_token(s[i]) {
        Some(i)
    } else {
        token_end(s, i + 1)
    }
}

/// Position of the `"` that closes a quoted string, scanning from `i`; a `\` escapes the
/// character after it.
pub open spec fn quoted_end(s: Seq<u8>, i: int) -> Option<int>
    decreases s.len() - i,
{
    if i < 0 || i >= s.len() {
        None
    } else if s[i] == 0x5c {
        if i + 1 >= s.len() {
            None
        } else {
            quoted_end(s, i + 2)
        }
    } else if s[i] == 0x22 {
        Some(i)
    } else {
        quoted_end(s, i + 1)
    }
}

/// Position of the first byte `c` at or after `i`.
pub open spec fn byte_pos(s: Seq<u8>, c: u8, i: int) -> Option<int>
    decreases s.len() - i,
{
    if i < 0 || i >= s.len() {
        None
    } else if s[i] == c {
        Some(i)
    } else {
        byte_pos(s, c, i + 1)
    }
}

/// A byte that may continue a `@variable`: ASCII letters, digits and `_`.
pub open spec fn is_var_byte(c: u8) -> bool {
    (0x30 <= c <= 0x39) || (0x41 <= c <= 0x5a) || (0x61 <= c <= 0x7a) || c == 0x5f
}

/// Position of the first byte at or after `i` that does not continue a `@variable`.
pub open spec fn var_end(s: Seq<u8>, i: int) -> Option<int>
    decreases s.len() - i,
{
    if i < 0 || i >= s.len() {
        None
    } else if !is_var_byte(s[i]) {
        Some(i)
    } else {
        var_end(s, i + 1)
    }
}

/// Skipping comment lines: from `x[k..]` (just after a `#`), drop up to and including the line
/// break, then leading ASCII whitespace; go on while what followed the line break is another
/// `#`. `(m, true)`: the lexer goes on at `x[m..]`; `(m, false)`: a line break was missing and
/// the lexer gives up with its text at `x[m..]`.
pub open spec fn comment_end(x: Seq<u8>, k: int) -> (int, bool)
    decreases x.len() - k,
{
    if k < 0 || k > x.len() {
        (k, false)
    } else {
        match byte_pos(x, 0x0a, k) {
            None => (k, false),
            Some(j) => {
                let after = j + 1;
                let next = ascii_ws_len(x, after);
                if after < x.len() && x[after] == 0x23 && next > k {
                    comment_end(x, next)
                } else {
                    (next, true)
                }
            },
        }
    }
}

/// The number of bytes a text's bytes `v` classify as (the text after a token's first
/// character up to its end): all digits, `.`s, and a `-` only at the front.
pub open spec fn numeric_text(v: Seq<u8>) -> bool {
    forall|i: int|
        0 <= i < v.len() ==> ((v[i] == 0x2d && i == 0) || v[i] == 0x2e || (0x30 <= #[trigger] v[i]
            <= 0x39))
}

/// Number of `.`s in `v`.
pub open spec fn dot_count(v: Seq<u8>) -> nat
    decreases v.len(),
{
    if v.len() == 0 {
        0
    } else {
        dot_count(v.drop_last()) + if v.last() == 0x2e {
            1nat
        } else {
            0
        }
    }
}

/// `v` has some ASCII digit.
pub open spec fn has_digit(v: Seq<u8>) -> bool {
    exists|i: int| 0 <= i < v.len() && 0x30 <= #[trigger] v[i] <= 0x39
}

/// The token an unquoted scalar text `v` stands for, or `None` when it looks like a number but
/// is not one.
pub open spec fn classify_scalar(v: Seq<u8>) -> Option<TokenView> {
    if v =~= seq![0x79u8, 0x65, 0x73] {
        Some(TokenView::Bool(true))
    } else if v =~= seq![0x6eu8, 0x6f] {
        Some(TokenView::Bool(false))
    } else if !numeric_text(v) {
        Some(TokenView::StringUnquoted(v))
    } else if dot_count(v) == 0 && v.len() > 0 && v[0] == 0x2d {
        match spec_parse_i64(v) {
            Some(n) => Some(TokenView::Int(n)),
            None => None,
        }
    } else if dot_count(v) == 0 {
        match spec_parse_u64(v) {
            Some(n) => Some(TokenView::UInt(n)),
            None => None,
        }
    } else if dot_count(v) == 1 {
        if has_digit(v) {
            Some(TokenView::Float(v))
        } else {
            None
        }
    } else {
        Some(TokenView::StringUnquoted(v))
    }
}

/// One step of the lexer on the remaining text `s`: where the remaining text then starts,
/// and the token read (if any).
pub open spec fn spec_lex_next(s: Seq<u8>) -> (int, Option<TokenView>)
    decreases s.len(),
{
    let k = ascii_ws_len(s, 0);
    if !(0 <= k <= s.len()) || k == s.len() {
        (0, None)
    } else {
        let c = s[k];
        if c == 0x3d {
            (k + 1, Some(TokenView::Equal))
        } else if c == 0x7b {
            (k + 1, Some(TokenView::OpenBracket))
        } else if c == 0x7d {
            (k + 1, Some(TokenView::CloseBracket))
        } else if c == 0x22 {
            match quoted_end(s, k + 1) {
                Some(j) => (j + 1, Some(TokenView::StringQuoted(s.subrange(k + 1, j)))),
                None => (0, None),
            }
        } else if c == 0x23 {
            let x = s.subrange(k + 1, s.len() as int);
            let (m, done) = comment_end(x, 0);
            if !(0 <= m <= x.len()) {
                (k + 1, None)
            } else if !done {
                (k + 1 + m, None)
            } else {
                let (n2, tok) = spec_lex_next(x.subrange(m, x.len() as int));
                (k + 1 + m + n2, tok)
            }
        } else if c == 0x40 {
            if k + 1 < s.len() && s[k + 1] == 0x5b {
                match byte_pos(s, 0x5d, k + 2) {
                    Some(j) => (j + 1, Some(TokenView::Expr(s.subrange(k + 2, j)))),
                    None => (0, None),
                }
            } else {
                let e = match var_end(s, k + 1) {
                    Some(e) => e,
                    None => s.len() as int,
                };
                if e == k + 1 {
                    (0, None)
                } else {
                    (e, Some(TokenView::Variable(s.subrange(k + 1, e))))
                }
            }
        } else {
            let (v, next) = match token_end(s, k) {
                Some(e) => (s.subrange(k, e), e),
                None => (s.subrange(k, s.len() as int), s.len() as int),
            };
            match classify_scalar(v) {
                Some(tok) => (next, Some(tok)),
                None => (0, None),
            }
        }
    }
}

} // verus!

verus! {

proof fn lemma_ascii_ws_len(s: Seq<u8>, i: int)
    requires
        valid_utf8(s),
        splittable(s, i),
    ensures
        i <= ascii_ws_len(s, i) <= s.len(),
        splittable(s, ascii_ws_len(s, i)),
        ascii_ws_len(s, i) < s.len() ==> !is_ascii_ws(s[ascii_ws_len(s, i)]),
        forall|j: int| i <= j < ascii_ws_len(s, i) ==> is_ascii_ws(#[trigger] s[j]),
    decreases s.len() - i,
{
    if 0 <= i < s.len() && is_ascii_ws(s[i]) {
        lemma_after_ascii(s, i);
        lemma_ascii_ws_len(s, i + 1);
    }
}

fn ascii_ws_end(b: &[u8], i: usize) -> (res: usize)
    requires
        i <= b@.len(),
    ensures
        res == ascii_ws_len(b@, i as int),
{
    let mut j = i;
    while j < b.len() && (b[j] == 0x09 || b[j] == 0x0a || b[j] == 0x0c || b[j] == 0x0d || b[j]
        == 0x20)
        invariant
            i <= j <= b@.len(),
            ascii_ws_len(b@, i as int) == ascii_ws_len(b@, j as int),
        decreases b@.len() - j,
    {
        j = j + 1;
    }
    j
}

fn find_token_end(b: &[u8], i: usize) -> (res: Option<usize>)
    requires
        i <= b@.len(),
    ensures
        res matches Some(e) ==> token_end(b@, i as int) == Some(e as int),
        res is None ==> token_end(b@, i as int) is None,
        res matches Some(e) ==> i <= e < b@.len() && ends_token(b@[e as int]),
        res is None ==> forall|k: int| i <= k < b@.len() ==> !ends_token(#[trigger] b@[k]),
{
    let mut j = i;
    while j < b.len()
        invariant
            i <= j <= b@.len(),
            token_end(b@, i as int) == token_end(b@, j as int),
            forall|k: int| i <= k < j ==> !ends_token(#[trigger] b@[k]),
        decreases b@.len() - j,
    {
        let c = b[j];
        if c == 0x3d || c == 0x7b || c == 0x7d || c == 0x09 || c == 0x0a || c == 0x0c || c == 0x0d
            || c == 0x20 {
            return Some(j);
        }
        j = j + 1;
    }
    None
}

fn find_quoted_end(b: &[u8], i: usize) -> (res: Option<usize>)
    requires
        i <= b@.len(),
    ensures
        res matches Some(e) ==> quoted_end(b@, i as int) == Some(e as int),
        res is None ==> quoted_end(b@, i as int) is None,
        res matches Some(e) ==> i <= e < b@.len() && b@[e as int] == 0x22,
{
    let mut j = i;
    while j < b.len()
        invariant
            i <= j <= b@.len() + 1,
            quoted_end(b@, i as int) == quoted_end(b@, j as int),
        decreases b@.len() + 1 - j,
    {
        if b[j] == 0x5c {
            if j + 1 >= b.len() {
                return None;
            }
            j = j + 2;
        } else if b[j] == 0x22 {
            return Some(j);
        } else {
            j = j + 1;
        }
    }
    None
}

fn find_byte_pos(b: &[u8], c: u8, i: usize) -> (res: Option<usize>)
    ensures
        res matches Some(e) ==> byte_pos(b@, c, i as int) == Some(e as int),
        res is None ==> byte_pos(b@, c, i as int) is None,
        res matches Some(e) ==> i <= e < b@.len() && b@[e as int] == c,
{
    let mut j = i;
    while j < b.len()
        invariant
            i <= j,
            byte_pos(b@, c, i as int) == byte_pos(b@, c, j as int),
        decreases b@.len() - j,
    {
        if b[j] == c {
            return Some(j);
        }
        j = j + 1;
    }
    None
}

fn find_var_end(b: &[u8], i: usize) -> (res: Option<usize>)
    requires
        i <= b@.len(),
    ensures
        res matches Some(e) ==> var_end(b@, i as int) == Some(e as int),
        res is None ==> var_end(b@, i as int) is None,
        res matches Some(e) ==> i <= e < b@.len(),
        forall|k: int|
            i <= k < (match res {
                Some(e) => e as int,
                None => b@.len() as int,
            }) ==> is_var_byte(#[trigger] b@[k]),
{
    let mut j = i;
    while j < b.len()
        invariant
            i <= j <= b@.len(),
            var_end(b@, i as int) == var_end(b@, j as int),
            forall|k: int| i <= k < j ==> is_var_byte(#[trigger] b@[k]),
        decreases b@.len() - j,
    {
        let c = b[j];
        if !((0x30 <= c && c <= 0x39) || (0x41 <= c && c <= 0x5a) || (0x61 <= c && c <= 0x7a) || c
            == 0x5f) {
            return Some(j);
        }
        j = j + 1;
    }
    None
}

fn skip_comments(b: &[u8], k: usize) -> (res: (usize, bool))
    requires
        k <= b@.len(),
        valid_utf8(b@),
        splittable(b@, k as int),
    ensures
        res.0 as int == comment_end(b@, k as int).0,
        res.1 == comment_end(b@, k as int).1,
        k <= res.0 <= b@.len(),
        splittable(b@, res.0 as int),
{
    let n = b.len();
    let mut pos = k;
    loop
        invariant
            n == b@.len(),
            k <= pos <= n,
            valid_utf8(b@),
            splittable(b@, pos as int),
            comment_end(b@, k as int) == comment_end(b@, pos as int),
        decreases n - pos,
    {
        match find_byte_pos(b, 0x0a, pos) {
            None => {
                return (pos, false);
            },
            Some(j) => {
                let after = j + 1;
                let next = ascii_ws_end(b, after);
                proof {
                    lemma_ascii_ws_len_ge(b@, after as int);
                    lemma_after_ascii(b@, j as int);
                    lemma_ascii_ws_len(b@, after as int);
                }
                if after < n && b[after] == 0x23 && next > pos {
                    pos = next;
                } else {
                    return (next, true);
                }
            },
        }
    }
}

proof fn lemma_ascii_ws_len_ge(s: Seq<u8>, i: int)
    requires
        0 <= i <= s.len(),
    ensures
        i <= ascii_ws_len(s, i) <= s.len(),
        ascii_ws_len(s, i) < s.len() ==> !is_ascii_ws(s[ascii_ws_len(s, i)]),
    decreases s.len() - i,
{
    if i < s.len() && is_ascii_ws(s[i]) {
        lemma_ascii_ws_len_ge(s, i + 1);
    }
}

proof fn lemma_token_end(s: Seq<u8>, i: int)
    requires
        0 <= i,
    ensures
        token_end(s, i) matches Some(e) ==> i <= e < s.len() && ends_token(s[e]),
    decreases s.len() - i,
{
    if i < s.len() && !ends_token(s[i]) {
        lemma_token_end(s, i + 1);
    }
}

proof fn lemma_quoted_end(s: Seq<u8>, i: int)
    requires
        0 <= i,
    ensures
        quoted_end(s, i) matches Some(e) ==> i <= e < s.len(),
    decreases s.len() - i,
{
    if 0 <= i < s.len() {
        if s[i] == 0x5c {
            if i + 1 < s.len() {
                lemma_quoted_end(s, i + 2);
            }
        } else if s[i] != 0x22 {
            lemma_quoted_end(s, i + 1);
        }
    }
}

proof fn lemma_byte_pos(s: Seq<u8>, c: u8, i: int)
    requires
        0 <= i,
    ensures
        byte_pos(s, c, i) matches Some(e) ==> i <= e < s.len(),
    decreases s.len() - i,
{
    if 0 <= i < s.len() && s[i] != c {
        lemma_byte_pos(s, c, i + 1);
    }
}

proof fn lemma_var_end(s: Seq<u8>, i: int)
    requires
        0 <= i,
    ensures
        var_end(s, i) matches Some(e) ==> i <= e < s.len(),
    decreases s.len() - i,
{
    if 0 <= i < s.len() && is_var_byte(s[i]) {
        lemma_var_end(s, i + 1);
    }
}

/// A step of the lexer ends inside the text, and one that reads a token moves forward.
pub proof fn lemma_lex_next_bounds(s: Seq<u8>)
    ensures
        0 <= spec_lex_next(s).0 <= s.len(),
        spec_lex_next(s).1 is Some ==> spec_lex_next(s).0 > 0,
    decreases s.len(),
{
    lemma_ascii_ws_len_ge(s, 0);
    let k = ascii_ws_len(s, 0);
    if k < s.len() {
        let c = s[k];
        if c == 0x22 {
            lemma_quoted_end(s, k + 1);
        } else if c == 0x23 {
            let x = s.subrange(k + 1, s.len() as int);
            let (m, done) = comment_end(x, 0);
            if 0 <= m <= x.len() && done {
                lemma_lex_next_bounds(x.subrange(m, x.len() as int));
            }
        } else if c == 0x40 {
            lemma_byte_pos(s, 0x5d, k + 2);
            lemma_var_end(s, k + 1);
        } else {
            lemma_token_end(s, k);
        }
    }
}

/// Classifies the unquoted scalar text `v`.
fn classify<'a>(v: &'a str) -> (res: Option<TextToken<'a>>)
    ensures
        match classify_scalar(v.spec_bytes()) {
            Some(t) => res matches Some(r) && r@ == t,
            None => res is None,
        },
{
    let b = v.as_bytes();
    if b.len() == 3 && b[0] == 0x79 && b[1] == 0x65 && b[2] == 0x73 {
        proof {
            assert(b@ =~= seq![0x79u8, 0x65, 0x73]);
        }
        return Some(TextToken::Bool(true));
    }
    if b.len() == 2 && b[0] == 0x6e && b[1] == 0x6f {
        proof {
            assert(b@ =~= seq![0x6eu8, 0x6f]);
        }
        return Some(TextToken::Bool(false));
    }
    proof {
        if b@ =~= seq![0x79u8, 0x65, 0x73] {
            assert(b@.len() == 3 && b@[0] == 0x79 && b@[1] == 0x65 && b@[2] == 0x73);
        }
        if b@ =~= seq![0x6eu8, 0x6f] {
            assert(b@.len() == 2 && b@[0] == 0x6e && b@[1] == 0x6f);
        }
    }
    let mut dots: usize = 0;
    let mut digit = false;
    let mut i: usize = 0;
    while i < b.len()
        invariant
            b@ == v.spec_bytes(),
            0 <= i <= b@.len(),
            dots == dot_count(b@.subrange(0, i as int)),
            dots <= i,
            digit == has_digit(b@.subrange(0, i as int)),
            numeric_text(b@.subrange(0, i as int)),
            !(b@ =~= seq![0x79u8, 0x65, 0x73]),
            !(b@ =~= seq![0x6eu8, 0x6f]),
        decreases b@.len() - i,
    {
        let c = b[i];
        let ghost p = b@.subrange(0, i + 1);
        proof {
            assert(p.drop_last() =~= b@.subrange(0, i as int));
        }
        if c == 0x2d && i == 0 {
        } else if c == 0x2e {
            dots = dots + 1;
        } else if 0x30 <= c && c <= 0x39 {
            digit = true;
            proof {
                assert(p[i as int] == c);
            }
        } else {
            proof {
                assert(b@[i as int] == c);
                assert(!numeric_text(b@));
            }
            return Some(TextToken::StringUnquoted(v));
        }
        proof {
            if has_digit(p) && !has_digit(b@.subrange(0, i as int)) {
                let w = choose|w: int| 0 <= w < p.len() && 0x30 <= #[trigger] p[w] <= 0x39;
                assert(w == i);
            }
            if has_digit(b@.subrange(0, i as int)) {
                let w = choose|w: int| 0 <= w < i && 0x30 <= #[trigger] b@.subrange(0, i as int)[w] <= 0x39;
                assert(p[w] == b@[w]);
            }
        }
        i = i + 1;
    }
    proof {
        assert(b@.subrange(0, i as int) =~= b@);
    }
    if dots == 0 && b.len() > 0 && b[0] == 0x2d {
        return match parse_i64(b) {
            Some(n) => Some(TextToken::Int(n)),
            None => None,
        };
    }
    if dots == 0 {
        return match parse_u64(b) {
            Some(n) => Some(TextToken::UInt(n)),
            None => None,
        };
    }
    if dots == 1 {
        return if digit {
            Some(TextToken::Float(v))
        } else {
            None
        };
    }
    Some(TextToken::StringUnquoted(v))
}

} // verus!

verus! {

/// A lexer over text: each call to [`TextLexer::next`] reads one token.
#[derive(Clone, Copy)]
pub struct TextLexer<'a>(&'a str);

impl<'a> View for TextLexer<'a> {
    type V = Seq<u8>;

    /// The text still to be read, as UTF-8 bytes.
    closed spec fn view(&self) -> Seq<u8> {
        self.0.spec_bytes()
    }
}

impl<'a> TextLexer<'a> {
    pub fn new(buffer: &'a str) -> (res: TextLexer<'a>)
        ensures
            res@ == buffer.spec_bytes(),
    {
        TextLexer(buffer)
    }

    /// Reads the next token. Leading ASCII whitespace and `#` comment lines are skipped.
    /// `None` at the end of the text, for an unclosed string or expression, for an empty
    /// `@variable`, and for a text that looks like a number but does not read as one; the
    /// text is then left where it was (or after the comments that were skipped).
    #[verifier::rlimit(100)]
    #[verifier::spinoff_prover]
    pub fn next(&mut self) -> (res: Option<TextToken<'a>>)
        ensures
            ({
                let (n, tok) = spec_lex_next(old(self)@);
                &&& 0 <= n <= old(self)@.len()
                &&& final(self)@ == old(self)@.subrange(n, old(self)@.len() as int)
                &&& match tok {
                    Some(t) => res matches Some(r) && r@ == t,
                    None => res is None,
                }
            }),
        decreases old(self)@.len(),
    {
        let s = self.0;
        let b = s.as_bytes();
        let n = b.len();
        let ghost sb = b@;
        proof {
            assert(splittable(sb, 0));
            lemma_ascii_ws_len(sb, 0);
            assert(sb.subrange(0, n as int) =~= sb);
        }
        let k = ascii_ws_end(b, 0);
        if k == n {
            return None;
        }
        let c = b[k];
        if c == 0x3d || c == 0x7b || c == 0x7d {
            proof {
                lemma_after_ascii(sb, k as int);
            }
            self.0 = str_skip(s, k + 1);
            return Some(
                if c == 0x3d {
                    TextToken::Equal
                } else if c == 0x7b {
                    TextToken::OpenBracket
                } else {
                    TextToken::CloseBracket
                },
            );
        }
        if c == 0x22 {
            proof {
                lemma_after_ascii(sb, k as int);
            }
            return match find_quoted_end(b, k + 1) {
                Some(j) => {
                    proof {
                        lemma_after_ascii(sb, j as int);
                    }
                    let text = str_range(s, k + 1, j);
                    self.0 = str_skip(s, j + 1);
                    Some(TextToken::StringQuoted(text))
                },
                None => None,
            };
        }
        if c == 0x23 {
            proof {
                lemma_after_ascii(sb, k as int);
            }
            let x = str_skip(s, k + 1);
            let xb = x.as_bytes();
            proof {
                assert(splittable(xb@, 0));
            }
            let (m, done) = skip_comments(xb, 0);
            self.0 = str_skip(x, m);
            if !done {
                proof {
                    assert(self@ =~= sb.subrange(k + 1 + m, n as int));
                }
                return None;
            }
            let r = self.next();
            proof {
                let x2 = xb@.subrange(m as int, xb@.len() as int);
                let (n2, tok) = spec_lex_next(x2);
                assert(x2 =~= sb.subrange(k + 1 + m, n as int));
                assert(sb.subrange(k + 1 + m + n2, n as int) =~= x2.subrange(n2, x2.len() as int));
            }
            return r;
        }
        if c == 0x40 {
            proof {
                lemma_after_ascii(sb, k as int);
            }
            if k + 1 < n && b[k + 1] == 0x5b {
                proof {
                    lemma_after_ascii(sb, k + 1);
                }
                return match find_byte_pos(b, 0x5d, k + 2) {
                    Some(j) => {
                        proof {
                            lemma_after_ascii(sb, j as int);
                        }
                        let text = str_range(s, k + 2, j);
                        self.0 = str_skip(s, j + 1);
                        Some(TextToken::Expr(text))
                    },
                    None => None,
                };
            }
            let e = match find_var_end(b, k + 1) {
                Some(e) => e,
                None => n,
            };
            if e == k + 1 {
                return None;
            }
            proof {
                lemma_ascii_run(sb, k + 1, e as int);
            }
            let text = str_range(s, k + 1, e);
            self.0 = str_skip(s, e);
            return Some(TextToken::Variable(text));
        }
        let (v, next) = match find_token_end(b, k) {
            Some(e) => (str_range(s, k, e), e),
            None => (str_range(s, k, n), n),
        };
        match classify(v) {
            Some(tok) => {
                self.0 = str_skip(s, next);
                Some(tok)
            },
            None => None,
        }
    }
}

} // verus!

verus! {

/// The tokens a lexer reads from `s`, in order, up to the first step that reads none.
pub open spec fn lex_tokens(s: Seq<u8>) -> Seq<TokenView>
    decreases s.len(),
{
    match spec_lex_next(s).1 {
        None => seq![],
        Some(t) => {
            proof {
                lemma_lex_next_bounds(s);
            }
            seq![t] + lex_tokens(s.subrange(spec_lex_next(s).0, s.len() as int))
        },
    }
}

/// Each token with its indentation when printed one per line: four more inside each `{`, four
/// less (but not below zero) from each `}` on.
pub open spec fn layout(tokens: Seq<TokenView>, depth: int) -> Seq<(int, TokenView)>
    decreases tokens.len(),
{
    if tokens.len() == 0 {
        seq![]
    } else {
        let t = tokens[0];
        let d = if t is CloseBracket {
            if depth >= 4 {
                depth - 4
            } else {
                0
            }
        } else {
            depth
        };
        seq![(d, t)] + layout(
            tokens.drop_first(),
            if t is OpenBracket {
                d + 4
            } else {
                d
            },
        )
    }
}

/// Layout entries by their views.
pub open spec fn layout_view(v: Seq<(usize, TextToken)>) -> Seq<(int, TokenView)> {
    v.map_values(|e: (usize, TextToken)| (e.0 as int, e.1@))
}

proof fn lemma_lex_tokens_len(s: Seq<u8>)
    ensures
        lex_tokens(s).len() <= s.len(),
    decreases s.len(),
{
    lemma_lex_next_bounds(s);
    if spec_lex_next(s).1 is Some {
        lemma_lex_tokens_len(s.subrange(spec_lex_next(s).0, s.len() as int));
    }
}

impl<'a> TextLexer<'a> {
    /// The tokens of the text, each with the indentation it is printed with, one per line: four
    /// spaces more inside each `{`, four less (not below zero) from each `}` on.
    pub fn print_layout(self) -> (res: Vec<(usize, TextToken<'a>)>)
        requires
            4 * self@.len() <= usize::MAX,
        ensures
            layout_view(res@) == layout(lex_tokens(self@), 0),
    {
        let ghost start = self@;
        let mut lexer = self;
        let mut depth: usize = 0;
        let mut out: Vec<(usize, TextToken<'a>)> = Vec::new();
        proof {
            lemma_lex_tokens_len(start);
            assert(layout_view(out@) + layout(lex_tokens(lexer@), 0) =~= layout(lex_tokens(start), 0));
        }
        loop
            invariant
                start == self@,
                4 * start.len() <= usize::MAX,
                lex_tokens(lexer@).len() <= lexer@.len(),
                depth + 4 * lexer@.len() <= 4 * start.len(),
                layout_view(out@) + layout(lex_tokens(lexer@), depth as int) == layout(lex_tokens(start), 0),
            decreases lexer@.len(),
        {
            let ghost before = lexer@;
            proof {
                lemma_lex_next_bounds(before);
            }
            let tok = match lexer.next() {
                Some(t) => t,
                None => {
                    proof {
                        assert(lex_tokens(before) =~= seq![]);
                        assert(layout(lex_tokens(before), depth as int) =~= seq![]);
                        assert(layout_view(out@) + layout(lex_tokens(before), depth as int) =~= layout_view(out@));
                    }
                    return out;
                },
            };
            proof {
                lemma_lex_tokens_len(lexer@);
            }
            if let TextToken::CloseBracket = tok {
                depth = depth.saturating_sub(4);
            }
            let ghost old_out = out@;
            out.push((depth, tok));
            if let TextToken::OpenBracket = tok {
                depth = depth + 4;
            }
            proof {
                let ts = lex_tokens(before);
                assert(ts[0] == tok@);
                assert(ts.drop_first() =~= lex_tokens(lexer@));
                assert(layout_view(out@) =~= layout_view(old_out).push((out@.last().0 as int, tok@)));
            }
        }
    }
}

} // verus!

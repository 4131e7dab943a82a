use vstd::prelude::*;

verus! {

/// The declared type named by a datatype keyword.
#[derive(Debug, Clone, Copy, PartialEq, Eq, Structural)]
pub enum DataType {
    Integer,
    Boolean,
    String,
}

/// A literal value carried by a token or an expression.
#[derive(Debug, Clone, PartialEq, Eq)]
pub enum LitValue {
    Int(i64),
    Bool(bool),
    String(String),
}

/// One lexical unit. `Symbol` holds the line break.
#[derive(Debug, Clone, PartialEq, Eq)]
pub enum Token {
    Keyword(String),
    Id(String),
    Symbol(String),
    Op(String),
    Literal(LitValue),
    DTypeToken(DataType),
}

/// Why the scanner gave up.
#[derive(Debug, Clone, Copy, PartialEq, Eq, Structural)]
pub enum LexError {
    UnknownCharacter(char),
    InvalidNumericLiteral,
    UnterminatedString,
}

/// Mathematical value of a `LitValue`.
pub enum LitModel {
    Int(i64),
    Bool(bool),
    Str(Seq<char>),
}

/// Mathematical value of a `Token`.
pub enum TokenModel {
    Keyword(Seq<char>),
    Id(Seq<char>),
    Symbol(Seq<char>),
    Op(Seq<char>),
    Literal(LitModel),
    DTypeToken(DataType),
}

impl View for LitValue {
    type V = LitModel;

    open spec fn view(&self) -> LitModel {
        match self {
            LitValue::Int(n) => LitModel::Int(*n),
            LitValue::Bool(b) => LitModel::Bool(*b),
            LitValue::String(s) => LitModel::Str(s@),
        }
    }
}

impl View for Token {
    type V = TokenModel;

    open spec fn view(&self) -> TokenModel {
        match self {
            Token::Keyword(s) => TokenModel::Keyword(s@),
            Token::Id(s) => TokenModel::Id(s@),
            Token::Symbol(s) => TokenModel::Symbol(s@),
            Token::Op(s) => TokenModel::Op(s@),
            Token::Literal(l) => TokenModel::Literal(l@),
            Token::DTypeToken(d) => TokenModel::DTypeToken(*d),
        }
    }
}

pub open spec fn tokens_view(v: Seq<Token>) -> Seq<TokenModel> {
    v.map_values(|t: Token| t@)
}

/// The view of what `lex` returns.
pub open spec fn lex_result_view(r: Result<Vec<Token>, LexError>) -> Result<Seq<TokenModel>, LexError> {
    match r {
        Ok(v) => Ok(tokens_view(v@)),
        Err(e) => Err(e),
    }
}

// ----- character classes -----

/// The characters with the Unicode White_Space property.
pub open spec fn whitespace_class(c: char) -> bool {
    ('\u{9}' <= c && c <= '\u{d}') || c == ' ' || c == '\u{85}' || c == '\u{a0}' || c == '\u{1680}'
        || ('\u{2000}' <= c && c <= '\u{200a}') || c == '\u{2028}' || c == '\u{2029}' || c == '\u{202f}'
        || c == '\u{205f}' || c == '\u{3000}'
}

/// Whether a character beyond ASCII has the Unicode Alphabetic property.
pub uninterp spec fn unicode_alphabetic(c: char) -> bool;

/// Whether a character beyond ASCII lies in one of Unicode's number categories.
pub uninterp spec fn unicode_numeric(c: char) -> bool;

pub open spec fn is_ascii_char(c: char) -> bool {
    c <= '\u{7f}'
}

pub open spec fn is_ascii_letter(c: char) -> bool {
    ('a' <= c && c <= 'z') || ('A' <= c && c <= 'Z')
}

/// Alphabetic characters: the ASCII letters, and beyond ASCII the Unicode Alphabetic property.
pub open spec fn alphabetic_class(c: char) -> bool {
    if is_ascii_char(c) {
        is_ascii_letter(c)
    } else {
        unicode_alphabetic(c)
    }
}

/// Numeric characters: the ASCII digits, and beyond ASCII Unicode's number categories.
pub open spec fn numeric_class(c: char) -> bool {
    if is_ascii_char(c) {
        is_ascii_digit(c)
    } else {
        unicode_numeric(c)
    }
}

/// Whitespace is the Unicode White_Space property: the characters below.
fn is_whitespace(c: char) -> (r: bool)
    ensures
        r == whitespace_class(c),
{
    ('\u{9}' <= c && c <= '\u{d}') || c == ' ' || c == '\u{85}' || c == '\u{a0}' || c == '\u{1680}'
        || ('\u{2000}' <= c && c <= '\u{200a}') || c == '\u{2028}' || c == '\u{2029}' || c == '\u{202f}'
        || c == '\u{205f}' || c == '\u{3000}'
}

/// Relies on `char::is_alphabetic`: whether `c` has the Unicode Alphabetic property,
/// which within ASCII the letters alone have.
#[verifier::external_body]
fn is_alphabetic(c: char) -> (r: bool)
    ensures
        c <= '\u{7f}' ==> r == (('a' <= c && c <= 'z') || ('A' <= c && c <= 'Z')),
        c > '\u{7f}' ==> r == unicode_alphabetic(c),
{
    c.is_alphabetic()
}

/// Relies on `char::is_numeric`: whether `c` is in one of Unicode's number categories
/// (Nd, Nl, No), which within ASCII hold the digits alone.
#[verifier::external_body]
fn is_numeric(c: char) -> (r: bool)
    ensures
        c <= '\u{7f}' ==> r == ('0' <= c && c <= '9'),
        c > '\u{7f}' ==> r == unicode_numeric(c),
{
    c.is_numeric()
}

/// Relies on `String::push`: appends one character at the end.
#[verifier::external_body]
fn push_char(s: &mut String, c: char)
    ensures
        final(s)@ == old(s)@.push(c),
{
    s.push(c)
}

/// Identifier characters: alphanumeric (alphabetic or numeric) or underscore.
pub open spec fn ident_class(c: char) -> bool {
    alphabetic_class(c) || numeric_class(c) || c == '_'
}

// ----- lookup tables, consulted in order -----

/// Operators; every operator stands before each of its proper prefixes.
pub open spec fn operator_table() -> Seq<Seq<char>> {
    seq![
        seq!['|', '|'],
        seq!['&', '&'],
        seq!['=', '='],
        seq!['='],
        seq!['+'],
        seq!['-'],
        seq!['*'],
        seq!['/'],
        seq!['>'],
        seq!['<'],
        seq!['!'],
    ]
}

pub open spec fn keyword_table() -> Seq<Seq<char>> {
    seq![
        seq!['e', 'l', 's', 'e'],
        seq!['e', 'l', 'i', 'f'],
        seq!['i', 'f'],
        seq!['f', 'i'],
        seq!['t', 'r', 'u', 'e'],
        seq!['f', 'a', 'l', 's', 'e'],
        seq!['o', 'u', 't'],
        seq!['r', 'e', 'a', 'd'],
    ]
}

pub open spec fn datatype_table() -> Seq<Seq<char>> {
    seq![seq!['s', 't', 'r'], seq!['i', 'n', 't'], seq!['b', 'o', 'o', 'l']]
}

pub open spec fn datatype_of(k: int) -> DataType {
    if k == 0 {
        DataType::String
    } else if k == 1 {
        DataType::Integer
    } else {
        DataType::Boolean
    }
}

/// `w` occurs in `s` starting at `i`.
pub open spec fn occurs_at(s: Seq<char>, i: int, w: Seq<char>) -> bool {
    0 <= i && i + w.len() <= s.len() && s.subrange(i, i + w.len()) == w
}

/// `w` occurs at `i` and is followed by whitespace or the end of the input.
pub open spec fn word_at(s: Seq<char>, i: int, w: Seq<char>) -> bool {
    occurs_at(s, i, w) && (i + w.len() == s.len() || whitespace_class(s[i + w.len()]))
}

/// The first entry of `table`, from index `k` on, that occurs at `i`
/// (as a whole word when `whole` holds).
pub open spec fn first_match(table: Seq<Seq<char>>, s: Seq<char>, i: int, k: nat, whole: bool) -> Option<nat>
    decreases table.len() - k,
{
    if k >= table.len() {
        None
    } else if (if whole { word_at(s, i, table[k as int]) } else { occurs_at(s, i, table[k as int]) }) {
        Some(k)
    } else {
        first_match(table, s, i, k + 1, whole)
    }
}

/// What `first_match` finds is an entry that occurs at `i`.
pub proof fn lemma_first_match_occurs(table: Seq<Seq<char>>, s: Seq<char>, i: int, k: nat, whole: bool)
    requires
        first_match(table, s, i, k, whole) is Some,
    ensures
        ({
            let m = first_match(table, s, i, k, whole)->0;
            &&& k <= m < table.len()
            &&& occurs_at(s, i, table[m as int])
            &&& whole ==> word_at(s, i, table[m as int])
        }),
    decreases table.len() - k,
{
    if k < table.len() && !(if whole { word_at(s, i, table[k as int]) } else { occurs_at(s, i, table[k as int]) }) {
        lemma_first_match_occurs(table, s, i, k + 1, whole);
    }
}

/// End of the maximal run of identifier characters from `j`.
pub open spec fn ident_end(s: Seq<char>, j: int) -> int
    decreases s.len() - j,
{
    if 0 <= j < s.len() && ident_class(s[j]) {
        ident_end(s, j + 1)
    } else {
        j
    }
}

/// End of the maximal run of numeric characters from `j`.
pub open spec fn number_end(s: Seq<char>, j: int) -> int
    decreases s.len() - j,
{
    if 0 <= j < s.len() && numeric_class(s[j]) {
        number_end(s, j + 1)
    } else {
        j
    }
}

/// Runs end at or after where they start, and within the input.
pub proof fn lemma_run_ends_after(s: Seq<char>, j: int)
    requires
        0 <= j <= s.len(),
    ensures
        j <= ident_end(s, j) <= s.len(),
        j <= number_end(s, j) <= s.len(),
    decreases s.len() - j,
{
    if j < s.len() {
        lemma_run_ends_after(s, j + 1);
    }
}

/// Index of the first double quote at or after `j`.
pub open spec fn closing_quote(s: Seq<char>, j: int) -> Option<int>
    decreases s.len() - j,
{
    if j < 0 || j >= s.len() {
        None
    } else if s[j] == '"' {
        Some(j)
    } else {
        closing_quote(s, j + 1)
    }
}

pub open spec fn is_ascii_digit(c: char) -> bool {
    '0' <= c && c <= '9'
}

pub open spec fn all_ascii_digits(d: Seq<char>) -> bool {
    forall|k: int| 0 <= k < d.len() ==> is_ascii_digit(#[trigger] d[k])
}

/// Decimal value of a run of ASCII digits.
pub open spec fn digits_value(d: Seq<char>) -> int
    decreases d.len(),
{
    if d.len() == 0 {
        0
    } else {
        digits_value(d.drop_last()) * 10 + (d.last() as int - '0' as int)
    }
}

/// The token for keyword-table entry `k`: `true` and `false` become boolean literals.
pub open spec fn keyword_token(k: int) -> TokenModel {
    if k == 4 {
        TokenModel::Literal(LitModel::Bool(true))
    } else if k == 5 {
        TokenModel::Literal(LitModel::Bool(false))
    } else {
        TokenModel::Keyword(keyword_table()[k])
    }
}

/// What the scanner does at one position.
pub enum Scan {
    Skip(int),
    Emit(TokenModel, int),
    Fail(LexError),
}

/// One scanning step at position `i` (`0 <= i < s.len()`): the rules in priority order.
pub open spec fn scan_at(s: Seq<char>, i: int) -> Scan {
    let c = s[i];
    if c == '\n' {
        Scan::Emit(TokenModel::Symbol(seq!['\n']), i + 1)
    } else if whitespace_class(c) {
        Scan::Skip(i + 1)
    } else if first_match(operator_table(), s, i, 0, false) is Some {
        let w = operator_table()[first_match(operator_table(), s, i, 0, false)->0 as int];
        Scan::Emit(TokenModel::Op(w), i + w.len())
    } else if first_match(keyword_table(), s, i, 0, true) is Some {
        let k = first_match(keyword_table(), s, i, 0, true)->0 as int;
        Scan::Emit(keyword_token(k), i + keyword_table()[k].len())
    } else if first_match(datatype_table(), s, i, 0, true) is Some {
        let k = first_match(datatype_table(), s, i, 0, true)->0 as int;
        Scan::Emit(TokenModel::DTypeToken(datatype_of(k)), i + datatype_table()[k].len())
    } else if alphabetic_class(c) || c == '_' {
        let e = ident_end(s, i);
        Scan::Emit(TokenModel::Id(s.subrange(i, e)), e)
    } else if numeric_class(c) {
        let d = s.subrange(i, number_end(s, i));
        if all_ascii_digits(d) && digits_value(d) <= i64::MAX {
            Scan::Emit(TokenModel::Literal(LitModel::Int(digits_value(d) as i64)), number_end(s, i))
        } else {
            Scan::Fail(LexError::InvalidNumericLiteral)
        }
    } else if c == '"' {
        match closing_quote(s, i + 1) {
            Some(j) => Scan::Emit(TokenModel::Literal(LitModel::Str(s.subrange(i + 1, j))), j + 1),
            None => Scan::Fail(LexError::UnterminatedString),
        }
    } else {
        Scan::Fail(LexError::UnknownCharacter(c))
    }
}

/// The tokens of `s` from position `i` on, or the first error met.
/// Every step moves forward (see `scan_token`), so the fallbacks that keep this
/// definition total are never reached.
pub open spec fn lex_from(s: Seq<char>, i: int) -> Result<Seq<TokenModel>, LexError>
    decreases s.len() - i,
{
    if i < 0 || i >= s.len() {
        Ok(seq![])
    } else {
        match scan_at(s, i) {
            Scan::Skip(j) => if i < j <= s.len() { lex_from(s, j) } else { Ok(seq![]) },
            Scan::Emit(t, j) => if i < j <= s.len() {
                match lex_from(s, j) {
                    Ok(rest) => Ok(seq![t] + rest),
                    Err(e) => Err(e),
                }
            } else {
                Ok(seq![])
            },
            Scan::Fail(e) => Err(e),
        }
    }
}

/// The token sequence of a whole source text.
pub open spec fn lex_spec(s: Seq<char>) -> Result<Seq<TokenModel>, LexError> {
    lex_from(s, 0)
}

/// Prepends already scanned tokens to the outcome of the rest of the scan.
pub open spec fn prepend(done: Seq<TokenModel>, rest: Result<Seq<TokenModel>, LexError>) -> Result<Seq<TokenModel>, LexError> {
    match rest {
        Ok(t) => Ok(done + t),
        Err(e) => Err(e),
    }
}

// ----- executable scanner -----

pub(crate) fn chars_of(s: &String) -> (r: Vec<char>)
    ensures
        r@ == s@,
{
    let mut r: Vec<char> = Vec::new();
    for c in it: s.as_str().chars()
        invariant
            r@ == s@.take(it.index() as int),
            it.seq() == s@,
    {
        r.push(c);
    }
    r
}

fn string_of(w: &Vec<char>) -> (r: String)
    ensures
        r@ == w@,
{
    let mut r = String::new();
    let mut j: usize = 0;
    while j < w.len()
        invariant
            j <= w.len(),
            r@ == w@.take(j as int),
        decreases w.len() - j,
    {
        push_char(&mut r, w[j]);
        j += 1;
        assert(r@ =~= w@.take(j as int));
    }
    assert(r@ =~= w@);
    r
}

pub(crate) fn operator_chars(k: usize) -> (r: Vec<char>)
    requires
        k < 11,
    ensures
        r@ == operator_table()[k as int],
        r@.len() > 0,
{
    let r = match k {
        0 => vec!['|', '|'],
        1 => vec!['&', '&'],
        2 => vec!['=', '='],
        3 => vec!['='],
        4 => vec!['+'],
        5 => vec!['-'],
        6 => vec!['*'],
        7 => vec!['/'],
        8 => vec!['>'],
        9 => vec!['<'],
        _ => vec!['!'],
    };
    assert(r@ =~= operator_table()[k as int]);
    r
}

fn keyword_chars(k: usize) -> (r: Vec<char>)
    requires
        k < 8,
    ensures
        r@ == keyword_table()[k as int],
        r@.len() > 0,
{
    let r = match k {
        0 => vec!['e', 'l', 's', 'e'],
        1 => vec!['e', 'l', 'i', 'f'],
        2 => vec!['i', 'f'],
        3 => vec!['f', 'i'],
        4 => vec!['t', 'r', 'u', 'e'],
        5 => vec!['f', 'a', 'l', 's', 'e'],
        6 => vec!['o', 'u', 't'],
        _ => vec!['r', 'e', 'a', 'd'],
    };
    assert(r@ =~= keyword_table()[k as int]);
    r
}

fn datatype_chars(k: usize) -> (r: Vec<char>)
    requires
        k < 3,
    ensures
        r@ == datatype_table()[k as int],
        r@.len() > 0,
{
    let r = match k {
        0 => vec!['s', 't', 'r'],
        1 => vec!['i', 'n', 't'],
        _ => vec!['b', 'o', 'o', 'l'],
    };
    assert(r@ =~= datatype_table()[k as int]);
    r
}

fn occurs(cs: &Vec<char>, i: usize, w: &Vec<char>) -> (r: bool)
    ensures
        r == occurs_at(cs@, i as int, w@),
{
    if i > cs.len() || w.len() > cs.len() - i {
        return false;
    }
    let mut j: usize = 0;
    while j < w.len()
        invariant
            j <= w.len(),
            i + w.len() <= cs.len(),
            forall|m: int| 0 <= m < j ==> cs@[i + m] == w@[m],
        decreases w.len() - j,
    {
        if cs[i + j] != w[j] {
            assert(cs@.subrange(i as int, i + w.len())[j as int] != w@[j as int]);
            return false;
        }
        j += 1;
    }
    assert(cs@.subrange(i as int, i + w.len()) =~= w@);
    true
}

fn word_occurs(cs: &Vec<char>, i: usize, w: &Vec<char>) -> (r: bool)
    ensures
        r == word_at(cs@, i as int, w@),
{
    if !occurs(cs, i, w) {
        return false;
    }
    w.len() == cs.len() - i || is_whitespace(cs[i + w.len()])
}

fn get_operator(cs: &Vec<char>, i: usize) -> (r: Option<usize>)
    ensures
        match r {
            Some(k) => k < 11 && first_match(operator_table(), cs@, i as int, 0, false) == Some(k as nat),
            None => first_match(operator_table(), cs@, i as int, 0, false) is None,
        },
{
    let mut k: usize = 0;
    while k < 11
        invariant
            k <= 11,
            first_match(operator_table(), cs@, i as int, 0, false)
                == first_match(operator_table(), cs@, i as int, k as nat, false),
        decreases 11 - k,
    {
        let w = operator_chars(k);
        if occurs(cs, i, &w) {
            return Some(k);
        }
        k += 1;
    }
    None
}

fn get_keyword(cs: &Vec<char>, i: usize) -> (r: Option<usize>)
    ensures
        match r {
            Some(k) => k < 8 && first_match(keyword_table(), cs@, i as int, 0, true) == Some(k as nat),
            None => first_match(keyword_table(), cs@, i as int, 0, true) is None,
        },
{
    let mut k: usize = 0;
    while k < 8
        invariant
            k <= 8,
            first_match(keyword_table(), cs@, i as int, 0, true)
                == first_match(keyword_table(), cs@, i as int, k as nat, true),
        decreases 8 - k,
    {
        let w = keyword_chars(k);
        if word_occurs(cs, i, &w) {
            return Some(k);
        }
        k += 1;
    }
    None
}

fn get_datatype(cs: &Vec<char>, i: usize) -> (r: Option<usize>)
    ensures
        match r {
            Some(k) => k < 3 && first_match(datatype_table(), cs@, i as int, 0, true) == Some(k as nat),
            None => first_match(datatype_table(), cs@, i as int, 0, true) is None,
        },
{
    let mut k: usize = 0;
    while k < 3
        invariant
            k <= 3,
            first_match(datatype_table(), cs@, i as int, 0, true)
                == first_match(datatype_table(), cs@, i as int, k as nat, true),
        decreases 3 - k,
    {
        let w = datatype_chars(k);
        if word_occurs(cs, i, &w) {
            return Some(k);
        }
        k += 1;
    }
    None
}

fn is_ident_char(c: char) -> (r: bool)
    ensures
        r == ident_class(c),
{
    is_alphabetic(c) || is_numeric(c) || c == '_'
}

fn get_identifier(cs: &Vec<char>, i: usize) -> (r: (String, usize))
    requires
        i <= cs.len(),
    ensures
        r.1 == ident_end(cs@, i as int),
        i <= r.1 <= cs.len(),
        r.0@ == cs@.subrange(i as int, r.1 as int),
{
    let mut id = String::new();
    let mut j: usize = i;
    while j < cs.len() && is_ident_char(cs[j])
        invariant
            i <= j <= cs.len(),
            ident_end(cs@, i as int) == ident_end(cs@, j as int),
            id@ == cs@.subrange(i as int, j as int),
        decreases cs.len() - j,
    {
        let c = cs[j];
        push_char(&mut id, c);
        j += 1;
        assert(id@ =~= cs@.subrange(i as int, j as int));
    }
    (id, j)
}

proof fn lemma_digits_value_nonneg(d: Seq<char>)
    requires
        all_ascii_digits(d),
    ensures
        digits_value(d) >= 0,
    decreases d.len(),
{
    if d.len() > 0 {
        assert(is_ascii_digit(d[d.len() - 1]));
        lemma_digits_value_nonneg(d.drop_last());
    }
}

fn get_number(cs: &Vec<char>, i: usize) -> (r: Result<(i64, usize), LexError>)
    requires
        i <= cs.len(),
    ensures
        ({
            let e = number_end(cs@, i as int);
            let d = cs@.subrange(i as int, e);
            match r {
                Ok((v, j)) => all_ascii_digits(d) && digits_value(d) <= i64::MAX && j == e
                    && v == digits_value(d),
                Err(err) => !(all_ascii_digits(d) && digits_value(d) <= i64::MAX)
                    && err == LexError::InvalidNumericLiteral,
            }
        }),
        i <= number_end(cs@, i as int) <= cs.len(),
{
    let mut acc: i64 = 0;
    let mut ok = true;
    let mut j: usize = i;
    while j < cs.len() && is_numeric(cs[j])
        invariant
            i <= j <= cs.len(),
            acc >= 0,
            number_end(cs@, i as int) == number_end(cs@, j as int),
            ok ==> all_ascii_digits(cs@.subrange(i as int, j as int))
                && acc == digits_value(cs@.subrange(i as int, j as int)),
            !ok ==> !(all_ascii_digits(cs@.subrange(i as int, j as int))
                && digits_value(cs@.subrange(i as int, j as int)) <= i64::MAX),
        decreases cs.len() - j,
    {
        let c = cs[j];
        let ghost prev = cs@.subrange(i as int, j as int);
        let ghost next = cs@.subrange(i as int, j + 1);
        assert(next.drop_last() =~= prev);
        assert(next.last() == c);
        if ok {
            if '0' <= c && c <= '9' {
                let digit = (c as u32 - '0' as u32) as i128;
                let value = acc as i128 * 10 + digit;
                assert(value == digits_value(next));
                if value <= i64::MAX as i128 {
                    acc = value as i64;
                } else {
                    ok = false;
                }
                assert forall|m: int| 0 <= m < next.len() implies is_ascii_digit(#[trigger] next[m]) by {
                    if m < prev.len() {
                        assert(next[m] == prev[m]);
                    }
                }
            } else {
                ok = false;
                assert(!is_ascii_digit(next[next.len() - 1]));
            }
        } else {
            proof {
                if all_ascii_digits(next) {
                    assert forall|m: int| 0 <= m < prev.len() implies is_ascii_digit(#[trigger] prev[m]) by {
                        assert(prev[m] == next[m]);
                    }
                    lemma_digits_value_nonneg(prev);
                    assert(is_ascii_digit(next.last()));
                }
            }
        }
        j += 1;
    }
    if ok {
        Ok((acc, j))
    } else {
        Err(LexError::InvalidNumericLiteral)
    }
}

fn get_string(cs: &Vec<char>, i: usize) -> (r: Result<(String, usize), LexError>)
    requires
        i < cs.len(),
    ensures
        match closing_quote(cs@, i + 1) {
            Some(q) => r is Ok && r->Ok_0.0@ == cs@.subrange(i + 1, q) && r->Ok_0.1 == q + 1,
            None => r == Err::<(String, usize), LexError>(LexError::UnterminatedString),
        },
        closing_quote(cs@, i + 1) matches Some(q) ==> i < q < cs.len(),
{
    let mut text = String::new();
    let mut j: usize = i + 1;
    while j < cs.len()
        invariant
            i < j <= cs.len(),
            closing_quote(cs@, i + 1) == closing_quote(cs@, j as int),
            text@ == cs@.subrange(i + 1, j as int),
        decreases cs.len() - j,
    {
        let c = cs[j];
        if c == '"' {
            return Ok((text, j + 1));
        }
        push_char(&mut text, c);
        j += 1;
        assert(text@ =~= cs@.subrange(i + 1, j as int));
    }
    Err(LexError::UnterminatedString)
}

/// One scanning step at `i`: a token and the next position, no token (whitespace), or an error.
fn scan_token(cs: &Vec<char>, i: usize) -> (r: Result<(Option<Token>, usize), LexError>)
    requires
        i < cs.len(),
    ensures
        match r {
            Ok((Some(t), j)) => scan_at(cs@, i as int) == Scan::Emit(t@, j as int),
            Ok((None, j)) => scan_at(cs@, i as int) == Scan::Skip(j as int),
            Err(e) => scan_at(cs@, i as int) == Scan::Fail(e),
        },
        r matches Ok((_, j)) ==> i < j <= cs.len(),
{
    let c = cs[i];
    if c == '\n' {
        let nl = string_of(&vec!['\n']);
        assert(nl@ =~= seq!['\n']);
        return Ok((Some(Token::Symbol(nl)), i + 1));
    }
    if is_whitespace(c) {
        return Ok((None, i + 1));
    }
    if let Some(k) = get_operator(cs, i) {
        let w = operator_chars(k);
        proof {
            lemma_first_match_occurs(operator_table(), cs@, i as int, 0, false);
        }
        return Ok((Some(Token::Op(string_of(&w))), i + w.len()));
    }
    if let Some(k) = get_keyword(cs, i) {
        let w = keyword_chars(k);
        proof {
            lemma_first_match_occurs(keyword_table(), cs@, i as int, 0, true);
        }
        let t = if k == 4 {
            Token::Literal(LitValue::Bool(true))
        } else if k == 5 {
            Token::Literal(LitValue::Bool(false))
        } else {
            Token::Keyword(string_of(&w))
        };
        return Ok((Some(t), i + w.len()));
    }
    if let Some(k) = get_datatype(cs, i) {
        let w = datatype_chars(k);
        proof {
            lemma_first_match_occurs(datatype_table(), cs@, i as int, 0, true);
        }
        let dt = if k == 0 {
            DataType::String
        } else if k == 1 {
            DataType::Integer
        } else {
            DataType::Boolean
        };
        return Ok((Some(Token::DTypeToken(dt)), i + w.len()));
    }
    if is_alphabetic(c) || c == '_' {
        proof {
            lemma_run_ends_after(cs@, i + 1);
        }
        let (id, j) = get_identifier(cs, i);
        return Ok((Some(Token::Id(id)), j));
    }
    if is_numeric(c) {
        proof {
            lemma_run_ends_after(cs@, i + 1);
        }
        let (n, j) = get_number(cs, i)?;
        return Ok((Some(Token::Literal(LitValue::Int(n))), j));
    }
    if c == '"' {
        let (text, j) = get_string(cs, i)?;
        return Ok((Some(Token::Literal(LitValue::String(text))), j));
    }
    Err(LexError::UnknownCharacter(c))
}

/// Splits source text into tokens, scanning once from left to right.
pub fn lex(code: String) -> (r: Result<Vec<Token>, LexError>)
    ensures
        lex_result_view(r) == lex_spec(code@),
{
    let cs = chars_of(&code);
    let mut tokens: Vec<Token> = Vec::new();
    let mut i: usize = 0;
    while i < cs.len()
        invariant
            i <= cs.len(),
            cs@ == code@,
            lex_spec(cs@) == prepend(tokens_view(tokens@), lex_from(cs@, i as int)),
        decreases cs.len() - i,
    {
        let step = scan_token(&cs, i);
        match step {
            Ok((Some(t), j)) => {
                let ghost before = tokens_view(tokens@);
                tokens.push(t);
                proof {
                    assert(tokens_view(tokens@) =~= before + seq![t@]);
                    match lex_from(cs@, j as int) {
                        Ok(rest) => assert(before + (seq![t@] + rest) =~= tokens_view(tokens@) + rest),
                        Err(_) => {},
                    }
                }
                i = j;
            },
            Ok((None, j)) => {
                i = j;
            },
            Err(e) => {
                return Err(e);
            },
        }
    }
    assert(tokens_view(tokens@) + seq![] =~= tokens_view(tokens@));
    Ok(tokens)
}

// ----- laws of the scanner -----

proof fn lemma_first_match_at_most(table: Seq<Seq<char>>, s: Seq<char>, i: int, k0: nat, k: nat)
    requires
        k0 <= k < table.len(),
        occurs_at(s, i, table[k as int]),
    ensures
        first_match(table, s, i, k0, false) matches Some(m) && m <= k,
    decreases k - k0,
{
    if !occurs_at(s, i, table[k0 as int]) {
        lemma_first_match_at_most(table, s, i, k0 + 1, k);
    }
}

proof fn lemma_differs_at(s: Seq<char>, i: int, w: Seq<char>, m: int)
    requires
        0 <= m < w.len(),
        0 <= i,
        i + m < s.len(),
        s[i + m] != w[m],
    ensures
        !occurs_at(s, i, w),
        !word_at(s, i, w),
{
    if occurs_at(s, i, w) {
        assert(s.subrange(i, i + w.len())[m] == s[i + m]);
    }
}

/// Maximal munch: where an operator of the table occurs in full at a position that the
/// operator rule reaches, the scanner takes an operator at least as long there; a longer
/// operator is never split into one of its prefixes.
pub proof fn lemma_operator_maximal_munch(s: Seq<char>, i: int, k: int)
    requires
        0 <= i < s.len(),
        s[i] != '\n',
        !whitespace_class(s[i]),
        0 <= k < operator_table().len(),
        occurs_at(s, i, operator_table()[k]),
    ensures
        scan_at(s, i) matches Scan::Emit(TokenModel::Op(w), j) && j == i + w.len()
            && occurs_at(s, i, w) && w.len() >= operator_table()[k].len(),
{
    lemma_first_match_at_most(operator_table(), s, i, 0, k as nat);
    lemma_first_match_occurs(operator_table(), s, i, 0, false);
    let m = first_match(operator_table(), s, i, 0, false)->0 as int;
    assert(operator_table()[m].len() >= operator_table()[k].len()) by {
        assert(forall|a: int| 0 <= a < 3 ==> #[trigger] operator_table()[a].len() == 2);
        assert(forall|a: int| 3 <= a < 11 ==> #[trigger] operator_table()[a].len() == 1);
    }
}

/// Keywords are whole words: a keyword token emitted at `i` spans the keyword's text,
/// which is followed by whitespace or the end of the input.
pub proof fn lemma_keyword_whole_word(s: Seq<char>, i: int)
    requires
        0 <= i < s.len(),
        scan_at(s, i) is Emit,
        scan_at(s, i)->Emit_0 is Keyword,
    ensures
        ({
            let w = scan_at(s, i)->Emit_0->Keyword_0;
            &&& word_at(s, i, w)
            &&& scan_at(s, i)->Emit_1 == i + w.len()
        }),
{
    if first_match(keyword_table(), s, i, 0, true) is Some {
        lemma_first_match_occurs(keyword_table(), s, i, 0, true);
    }
}

/// The words `true` and `false` become boolean literals: where either stands at `i` as a
/// whole word, the scanner emits the literal, and it never emits them as keyword tokens.
pub proof fn lemma_boolean_literals(s: Seq<char>, i: int)
    requires
        0 <= i < s.len(),
    ensures
        word_at(s, i, seq!['t', 'r', 'u', 'e']) ==> scan_at(s, i) == Scan::Emit(
            TokenModel::Literal(LitModel::Bool(true)),
            i + 4,
        ),
        word_at(s, i, seq!['f', 'a', 'l', 's', 'e']) ==> scan_at(s, i) == Scan::Emit(
            TokenModel::Literal(LitModel::Bool(false)),
            i + 5,
        ),
        !(scan_at(s, i) matches Scan::Emit(TokenModel::Keyword(w), _) && (w == seq!['t', 'r', 'u', 'e']
            || w == seq!['f', 'a', 'l', 's', 'e'])),
{
    let t = seq!['t', 'r', 'u', 'e'];
    let f = seq!['f', 'a', 'l', 's', 'e'];
    reveal_with_fuel(first_match, 12);
    if word_at(s, i, t) || word_at(s, i, f) {
        let w = if word_at(s, i, t) { t } else { f };
        assert(s[i] == s.subrange(i, i + w.len())[0]);
        assert(w.len() >= 4 && s[i + 1] == s.subrange(i, i + w.len())[1]);
        assert forall|k: int| 0 <= k < 11 implies !occurs_at(s, i, #[trigger] operator_table()[k]) by {
            lemma_differs_at(s, i, operator_table()[k], 0);
        }
        lemma_differs_at(s, i, keyword_table()[0], 0);
        lemma_differs_at(s, i, keyword_table()[1], 0);
        lemma_differs_at(s, i, keyword_table()[2], 0);
        lemma_differs_at(s, i, keyword_table()[3], if w == t { 0 } else { 1 });
        if w == f {
            lemma_differs_at(s, i, keyword_table()[4], 0);
        }
    }
    if first_match(keyword_table(), s, i, 0, true) is Some {
        lemma_first_match_occurs(keyword_table(), s, i, 0, true);
        let k = first_match(keyword_table(), s, i, 0, true)->0 as int;
        assert(keyword_table()[k] != t && keyword_table()[k] != f || k == 4 || k == 5) by {
            if k != 4 && k != 5 {
                assert(keyword_table()[k].len() != 4 || keyword_table()[k][0] != 't');
                assert(keyword_table()[k].len() != 5);
            }
        }
    }
}

} // verus!

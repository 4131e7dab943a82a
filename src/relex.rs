use vstd::prelude::*;
use crate::lexer::{
    all_ascii_digits, alphabetic_class, digits_value, ident_class, is_ascii_digit, keyword_token, lex_spec,
    numeric_class, whitespace_class, DataType, LitModel, TokenModel,
    closing_quote, datatype_table, first_match, ident_end, keyword_table, lemma_run_ends_after, lex_from,
    number_end, occurs_at, operator_table, scan_at, word_at, Scan,
};

verus! {

/// A scanning step moved right by `n` positions.
pub open spec fn shift_scan(sc: Scan, n: int) -> Scan {
    match sc {
        Scan::Skip(j) => Scan::Skip(j + n),
        Scan::Emit(t, j) => Scan::Emit(t, j + n),
        Scan::Fail(e) => Scan::Fail(e),
    }
}

proof fn lemma_shift_occurs(p: Seq<char>, b: Seq<char>, k: int, w: Seq<char>)
    requires
        0 <= k <= b.len(),
    ensures
        occurs_at(p + b, p.len() + k, w) == occurs_at(b, k, w),
        word_at(p + b, p.len() + k, w) == word_at(b, k, w),
{
    let s = p + b;
    if k + w.len() <= b.len() {
        assert(s.subrange(p.len() + k, p.len() + k + w.len()) =~= b.subrange(k, k + w.len()));
        if k + w.len() < b.len() {
            assert(s[p.len() + k + w.len()] == b[k + w.len()]);
        }
    }
}

proof fn lemma_shift_first_match(p: Seq<char>, b: Seq<char>, k: int, table: Seq<Seq<char>>, m: nat, whole: bool)
    requires
        0 <= k <= b.len(),
    ensures
        first_match(table, p + b, p.len() + k, m, whole) == first_match(table, b, k, m, whole),
    decreases table.len() - m,
{
    if m < table.len() {
        lemma_shift_occurs(p, b, k, table[m as int]);
        lemma_shift_first_match(p, b, k, table, m + 1, whole);
    }
}

proof fn lemma_shift_runs(p: Seq<char>, b: Seq<char>, k: int)
    requires
        0 <= k <= b.len(),
    ensures
        ident_end(p + b, p.len() + k) == p.len() + ident_end(b, k),
        number_end(p + b, p.len() + k) == p.len() + number_end(b, k),
        closing_quote(p + b, p.len() + k) == (match closing_quote(b, k) {
            Some(q) => Some(q + p.len()),
            None => None::<int>,
        }),
    decreases b.len() - k,
{
    if k < b.len() {
        assert((p + b)[p.len() + k] == b[k]);
        lemma_shift_runs(p, b, k + 1);
    }
}

proof fn lemma_shift_scan(p: Seq<char>, b: Seq<char>, k: int)
    requires
        0 <= k < b.len(),
    ensures
        scan_at(p + b, p.len() + k) == shift_scan(scan_at(b, k), p.len() as int),
{
    let s = p + b;
    let i = p.len() + k;
    assert(s[i] == b[k]);
    lemma_shift_first_match(p, b, k, operator_table(), 0, false);
    lemma_shift_first_match(p, b, k, keyword_table(), 0, true);
    lemma_shift_first_match(p, b, k, datatype_table(), 0, true);
    lemma_shift_runs(p, b, k);
    lemma_shift_runs(p, b, k + 1);
    lemma_run_ends_after(b, k);
    let e = ident_end(b, k);
    assert(s.subrange(i, p.len() + e) =~= b.subrange(k, e));
    let ne = number_end(b, k);
    assert(s.subrange(i, p.len() + ne) =~= b.subrange(k, ne));
    if let Some(q) = closing_quote(b, k + 1) {
        lemma_closing_quote_in_range(b, k + 1);
        assert(s.subrange(i + 1, q + p.len()) =~= b.subrange(k + 1, q));
    }
}

proof fn lemma_closing_quote_in_range(s: Seq<char>, j: int)
    requires
        closing_quote(s, j) is Some,
    ensures
        j <= closing_quote(s, j)->0 < s.len(),
        0 <= j,
    decreases s.len() - j,
{
    if 0 <= j < s.len() && s[j] != '"' {
        lemma_closing_quote_in_range(s, j + 1);
    }
}

/// Scanning does not look back: the tokens of `b` stay the same behind any prefix.
proof fn lemma_shift_lex(p: Seq<char>, b: Seq<char>, k: int)
    requires
        0 <= k <= b.len(),
    ensures
        lex_from(p + b, p.len() + k) == lex_from(b, k),
    decreases b.len() - k,
{
    if k < b.len() {
        lemma_shift_scan(p, b, k);
        match scan_at(b, k) {
            Scan::Skip(j) => {
                if k < j <= b.len() {
                    lemma_shift_lex(p, b, j);
                }
            },
            Scan::Emit(_, j) => {
                if k < j <= b.len() {
                    lemma_shift_lex(p, b, j);
                }
            },
            Scan::Fail(_) => {},
        }
    }
}

// ----- source forms -----

pub open spec fn digit_char(d: int) -> char {
    if d == 0 {
        '0'
    } else if d == 1 {
        '1'
    } else if d == 2 {
        '2'
    } else if d == 3 {
        '3'
    } else if d == 4 {
        '4'
    } else if d == 5 {
        '5'
    } else if d == 6 {
        '6'
    } else if d == 7 {
        '7'
    } else if d == 8 {
        '8'
    } else {
        '9'
    }
}

/// The decimal digits of `v`, without leading zeros.
pub open spec fn decimal(v: nat) -> Seq<char>
    decreases v,
{
    if v < 10 {
        seq![digit_char(v as int)]
    } else {
        decimal(v / 10).push(digit_char((v % 10) as int))
    }
}

pub open spec fn datatype_word(d: DataType) -> Seq<char> {
    match d {
        DataType::String => datatype_table()[0],
        DataType::Integer => datatype_table()[1],
        DataType::Boolean => datatype_table()[2],
    }
}

/// The text that a token is written as.
pub open spec fn source_form(t: TokenModel) -> Seq<char> {
    match t {
        TokenModel::Keyword(w) => w,
        TokenModel::Id(n) => n,
        TokenModel::Symbol(x) => x,
        TokenModel::Op(o) => o,
        TokenModel::Literal(LitModel::Int(v)) => decimal(v as nat),
        TokenModel::Literal(LitModel::Bool(b)) => if b {
            keyword_table()[4]
        } else {
            keyword_table()[5]
        },
        TokenModel::Literal(LitModel::Str(x)) => seq!['"'] + x + seq!['"'],
        TokenModel::DTypeToken(d) => datatype_word(d),
    }
}

/// The source forms of `ts`, each followed by a space.
pub open spec fn render(ts: Seq<TokenModel>) -> Seq<char>
    decreases ts.len(),
{
    if ts.len() == 0 {
        seq![]
    } else {
        source_form(ts[0]) + seq![' '] + render(ts.drop_first())
    }
}

pub open spec fn no_whitespace(w: Seq<char>) -> bool {
    forall|i: int| 0 <= i < w.len() ==> !whitespace_class(#[trigger] w[i])
}

/// A token whose source form lexes back to it: a keyword of the table (other than the
/// boolean words), an identifier that is no keyword or type name, a line break, an
/// operator of the table, a non-negative integer, a string without a double quote,
/// a boolean or a datatype tag.
pub open spec fn reconstructable(t: TokenModel) -> bool {
    match t {
        TokenModel::Keyword(w) => w == keyword_table()[0] || w == keyword_table()[1] || w == keyword_table()[2]
            || w == keyword_table()[3] || w == keyword_table()[6] || w == keyword_table()[7],
        TokenModel::Id(n) => n.len() > 0 && (alphabetic_class(n[0]) || n[0] == '_')
            && (forall|i: int| 0 <= i < n.len() ==> ident_class(#[trigger] n[i])) && no_whitespace(n)
            && !keyword_table().contains(n) && !datatype_table().contains(n),
        TokenModel::Symbol(x) => x == seq!['\n'],
        TokenModel::Op(o) => operator_table().contains(o),
        TokenModel::Literal(LitModel::Int(v)) => v >= 0,
        TokenModel::Literal(LitModel::Str(x)) => !x.contains('"'),
        _ => true,
    }
}

// ----- matching a table against a form followed by a space -----

pub open spec fn first_equal(table: Seq<Seq<char>>, f: Seq<char>, m: nat) -> Option<nat>
    decreases table.len() - m,
{
    if m >= table.len() {
        None
    } else if table[m as int] == f {
        Some(m)
    } else {
        first_equal(table, f, m + 1)
    }
}

pub open spec fn first_prefix(table: Seq<Seq<char>>, f: Seq<char>, m: nat) -> Option<nat>
    decreases table.len() - m,
{
    if m >= table.len() {
        None
    } else if table[m as int].len() <= f.len() && f.take(table[m as int].len() as int) == table[m as int] {
        Some(m)
    } else {
        first_prefix(table, f, m + 1)
    }
}

proof fn lemma_match_form(f: Seq<char>, r: Seq<char>, x: Seq<char>)
    requires
        f.len() > 0,
        no_whitespace(f),
        !x.contains(' '),
    ensures
        word_at(f + seq![' '] + r, 0, x) <==> x == f,
        occurs_at(f + seq![' '] + r, 0, x) <==> (x.len() <= f.len() && f.take(x.len() as int) == x),
{
    let s = f + seq![' '] + r;
    assert(s[f.len() as int] == ' ');
    if x.len() <= f.len() {
        assert(s.subrange(0, x.len() as int) =~= f.take(x.len() as int));
        if x.len() < f.len() {
            assert(s[x.len() as int] == f[x.len() as int]);
            assert(!whitespace_class(f[x.len() as int]));
        }
    } else if occurs_at(s, 0, x) {
        assert(s.subrange(0, x.len() as int)[f.len() as int] == x[f.len() as int]);
        assert(x.contains(x[f.len() as int]));
    }
    assert(f.take(f.len() as int) =~= f);
    if x.len() == f.len() && occurs_at(s, 0, x) {
        assert(x == f);
    }
    if x == f {
        assert(whitespace_class(s[f.len() as int]));
        assert(occurs_at(s, 0, x));
    }
}

proof fn lemma_first_match_form(table: Seq<Seq<char>>, f: Seq<char>, r: Seq<char>, m: nat)
    requires
        f.len() > 0,
        no_whitespace(f),
        forall|k: int| 0 <= k < table.len() ==> !(#[trigger] table[k]).contains(' '),
    ensures
        first_match(table, f + seq![' '] + r, 0, m, true) == first_equal(table, f, m),
        first_match(table, f + seq![' '] + r, 0, m, false) == first_prefix(table, f, m),
    decreases table.len() - m,
{
    if m < table.len() {
        lemma_match_form(f, r, table[m as int]);
        lemma_first_match_form(table, f, r, m + 1);
    }
}

proof fn lemma_first_equal_is(table: Seq<Seq<char>>, f: Seq<char>, m: nat, k: nat)
    requires
        m <= k < table.len(),
        table[k as int] == f,
        forall|j: int| m <= j < k ==> table[j] != f,
    ensures
        first_equal(table, f, m) == Some(k),
    decreases k - m,
{
    if m < k {
        lemma_first_equal_is(table, f, m + 1, k);
    }
}

proof fn lemma_first_equal_none(table: Seq<Seq<char>>, f: Seq<char>, m: nat)
    requires
        forall|j: int| m <= j < table.len() ==> table[j] != f,
    ensures
        first_equal(table, f, m) is None,
    decreases table.len() - m,
{
    if m < table.len() {
        lemma_first_equal_none(table, f, m + 1);
    }
}

proof fn lemma_first_prefix_is(table: Seq<Seq<char>>, f: Seq<char>, m: nat, k: nat)
    requires
        m <= k < table.len(),
        table[k as int] == f,
        forall|j: int| m <= j < k ==> !(table[j].len() <= f.len() && f.take(table[j].len() as int) == table[j]),
    ensures
        first_prefix(table, f, m) == Some(k),
    decreases k - m,
{
    if m < k {
        lemma_first_prefix_is(table, f, m + 1, k);
    } else {
        assert(f.take(f.len() as int) =~= f);
    }
}

proof fn lemma_no_match_first_char(table: Seq<Seq<char>>, s: Seq<char>, m: nat, whole: bool)
    requires
        s.len() > 0,
        forall|k: int| 0 <= k < table.len() ==> (#[trigger] table[k]).len() > 0 && table[k][0] != s[0],
    ensures
        first_match(table, s, 0, m, whole) is None,
    decreases table.len() - m,
{
    if m < table.len() {
        let w = table[m as int];
        if occurs_at(s, 0, w) {
            assert(s.subrange(0, w.len() as int)[0] == s[0]);
        }
        lemma_no_match_first_char(table, s, m + 1, whole);
    }
}

/// Length, first and last character: these tell the words of the tables apart.
pub open spec fn signature(w: Seq<char>) -> (int, char, char) {
    (w.len() as int, w[0], w[w.len() - 1])
}

proof fn lemma_tables()
    ensures
        forall|k: int| 0 <= k < operator_table().len() ==> !(#[trigger] operator_table()[k]).contains(' '),
        forall|k: int| 0 <= k < keyword_table().len() ==> !(#[trigger] keyword_table()[k]).contains(' '),
        forall|k: int| 0 <= k < datatype_table().len() ==> !(#[trigger] datatype_table()[k]).contains(' '),
        forall|k: int| 0 <= k < keyword_table().len() ==> no_whitespace(#[trigger] keyword_table()[k]),
        forall|k: int| 0 <= k < datatype_table().len() ==> no_whitespace(#[trigger] datatype_table()[k]),
        forall|k: int| 0 <= k < operator_table().len() ==> no_whitespace(#[trigger] operator_table()[k]),
        forall|k: int|
            0 <= k < keyword_table().len() ==> (#[trigger] keyword_table()[k]).len() > 0 && is_ascii_letter_word(
                keyword_table()[k],
            ),
        forall|k: int|
            0 <= k < datatype_table().len() ==> (#[trigger] datatype_table()[k]).len() > 0 && is_ascii_letter_word(
                datatype_table()[k],
            ),
        forall|k: int| 0 <= k < operator_table().len() ==> (#[trigger] operator_table()[k]).len() > 0
            && is_operator_char(operator_table()[k][0]),
{
    assert forall|k: int| 0 <= k < operator_table().len() implies !(#[trigger] operator_table()[k]).contains(' ')
        && no_whitespace(operator_table()[k]) by {
        let w = operator_table()[k];
        assert forall|i: int| 0 <= i < w.len() implies w[i] != ' ' && !whitespace_class(#[trigger] w[i]) by {
            assert(is_operator_char(w[i]));
        }
    }
    assert forall|k: int| 0 <= k < keyword_table().len() implies !(#[trigger] keyword_table()[k]).contains(' ')
        && no_whitespace(keyword_table()[k]) by {
        let w = keyword_table()[k];
        assert forall|i: int| 0 <= i < w.len() implies w[i] != ' ' && !whitespace_class(#[trigger] w[i]) by {
            assert('a' <= w[i] && w[i] <= 'z');
        }
    }
    assert forall|k: int| 0 <= k < datatype_table().len() implies !(#[trigger] datatype_table()[k]).contains(' ')
        && no_whitespace(datatype_table()[k]) by {
        let w = datatype_table()[k];
        assert forall|i: int| 0 <= i < w.len() implies w[i] != ' ' && !whitespace_class(#[trigger] w[i]) by {
            assert('a' <= w[i] && w[i] <= 'z');
        }
    }
}

pub open spec fn is_ascii_letter_word(w: Seq<char>) -> bool {
    forall|i: int| 0 <= i < w.len() ==> 'a' <= #[trigger] w[i] && w[i] <= 'z'
}

pub open spec fn is_operator_char(c: char) -> bool {
    c == '|' || c == '&' || c == '=' || c == '+' || c == '-' || c == '*' || c == '/' || c == '>' || c == '<'
        || c == '!'
}

proof fn lemma_runs_to(s: Seq<char>, j: int, e: int)
    requires
        0 <= j <= e < s.len(),
        s[e] == ' ',
    ensures
        (forall|i: int| j <= i < e ==> ident_class(#[trigger] s[i])) ==> ident_end(s, j) == e,
        (forall|i: int| j <= i < e ==> numeric_class(#[trigger] s[i])) ==> number_end(s, j) == e,
        (forall|i: int| j <= i < e ==> #[trigger] s[i] != '"') ==> closing_quote(s, j) == (if s[e] == '"' {
            Some(e)
        } else {
            closing_quote(s, e)
        }),
    decreases e - j,
{
    if j < e {
        lemma_runs_to(s, j + 1, e);
    }
}

proof fn lemma_quote_run(s: Seq<char>, j: int, e: int)
    requires
        0 <= j <= e < s.len(),
        s[e] == '"',
        forall|i: int| j <= i < e ==> #[trigger] s[i] != '"',
    ensures
        closing_quote(s, j) == Some(e),
    decreases e - j,
{
    if j < e {
        lemma_quote_run(s, j + 1, e);
    }
}

proof fn lemma_decimal(v: nat)
    ensures
        decimal(v).len() > 0,
        all_ascii_digits(decimal(v)),
        digits_value(decimal(v)) == v,
    decreases v,
{
    let d = decimal(v);
    if v < 10 {
        assert(digit_char(v as int) as int - '0' as int == v);
        assert(d.drop_last() =~= Seq::<char>::empty());
        assert(digits_value(d.drop_last()) == 0);
    }
    if v >= 10 {
        lemma_decimal(v / 10);
        assert(d.drop_last() =~= decimal(v / 10));
        let m = (v % 10) as int;
        assert(digit_char(m) as int - '0' as int == m);
        assert(v == (v / 10) * 10 + v % 10);
        assert(d.last() == digit_char(m));
        assert(digits_value(d) == digits_value(d.drop_last()) * 10 + (d.last() as int - '0' as int));
        assert(digits_value(d) == (v / 10) as int * 10 + m);
        assert forall|k: int| 0 <= k < d.len() implies is_ascii_digit(#[trigger] d[k]) by {
            if k < d.len() - 1 {
                assert(d[k] == decimal(v / 10)[k]);
            }
        }
    }
}

/// The source form of a reconstructable token, followed by a space and anything at all,
/// scans back to the token, then to the space.
proof fn lemma_token_form(t: TokenModel, r: Seq<char>)
    requires
        reconstructable(t),
    ensures
        ({
            let f = source_form(t);
            let s = f + seq![' '] + r;
            &&& f.len() > 0
            &&& scan_at(s, 0) == Scan::Emit(t, f.len() as int)
            &&& scan_at(s, f.len() as int) == Scan::Skip(f.len() as int + 1)
        }),
{
    let f = source_form(t);
    let s = f + seq![' '] + r;
    lemma_tables();
    match t {
        TokenModel::Symbol(x) => {
            assert(f.len() == 1);
            assert(s[0] == '\n');
        },
        TokenModel::Op(o) => {
            let k = choose|k: int| 0 <= k < operator_table().len() && operator_table()[k] == o;
            assert(s[0] == o[0]);
            lemma_first_match_form(operator_table(), f, r, 0);
            assert forall|j: int| 0 <= j < k implies !(operator_table()[j].len() <= o.len() && o.take(
                operator_table()[j].len() as int,
            ) == operator_table()[j]) by {
                let w = operator_table()[j];
                if w.len() <= o.len() && o.take(w.len() as int) == w {
                    assert(o.take(w.len() as int)[0] == o[0]);
                    if w.len() == 2 && o.len() == 2 {
                        assert(o.take(2)[1] == o[1]);
                    }
                }
            }
            lemma_first_prefix_is(operator_table(), o, 0, k as nat);
        },
        TokenModel::Keyword(w) => {
            let k = if w == keyword_table()[0] { 0int } else if w == keyword_table()[1] { 1 } else if w == keyword_table()[2] { 2 }
                else if w == keyword_table()[3] { 3 } else if w == keyword_table()[6] { 6 } else { 7 };
            assert(s[0] == w[0]);
            lemma_no_match_first_char(operator_table(), s, 0, false);
            lemma_first_match_form(keyword_table(), f, r, 0);
            assert forall|j: int| 0 <= j < k implies keyword_table()[j] != w by {
                assert(signature(keyword_table()[j]) != signature(w));
            }
            lemma_first_equal_is(keyword_table(), w, 0, k as nat);
        },
        TokenModel::Literal(LitModel::Bool(b)) => {
            let k = if b { 4int } else { 5 };
            assert(s[0] == f[0]);
            lemma_no_match_first_char(operator_table(), s, 0, false);
            lemma_first_match_form(keyword_table(), f, r, 0);
            assert forall|j: int| 0 <= j < k implies keyword_table()[j] != f by {
                assert(signature(keyword_table()[j]) != signature(f));
            }
            lemma_first_equal_is(keyword_table(), f, 0, k as nat);
        },
        TokenModel::DTypeToken(d) => {
            let k = match d {
                DataType::String => 0int,
                DataType::Integer => 1,
                DataType::Boolean => 2,
            };
            assert(s[0] == f[0]);
            lemma_no_match_first_char(operator_table(), s, 0, false);
            lemma_first_match_form(keyword_table(), f, r, 0);
            lemma_first_match_form(datatype_table(), f, r, 0);
            assert forall|j: int| 0 <= j < keyword_table().len() implies keyword_table()[j] != f by {
                assert(signature(keyword_table()[j]) != signature(f));
            }
            lemma_first_equal_none(keyword_table(), f, 0);
            assert forall|j: int| 0 <= j < k implies datatype_table()[j] != f by {
                assert(signature(datatype_table()[j]) != signature(f));
            }
            lemma_first_equal_is(datatype_table(), f, 0, k as nat);
        },
        TokenModel::Id(n) => {
            assert(s[0] == n[0]);
            lemma_no_match_first_char(operator_table(), s, 0, false);
            lemma_first_match_form(keyword_table(), f, r, 0);
            lemma_first_match_form(datatype_table(), f, r, 0);
            assert forall|j: int| 0 <= j < keyword_table().len() implies keyword_table()[j] != n by {
                if keyword_table()[j] == n {
                    assert(keyword_table().contains(n));
                }
            }
            assert forall|j: int| 0 <= j < datatype_table().len() implies datatype_table()[j] != n by {
                if datatype_table()[j] == n {
                    assert(datatype_table().contains(n));
                }
            }
            lemma_first_equal_none(keyword_table(), f, 0);
            lemma_first_equal_none(datatype_table(), f, 0);
            assert forall|i: int| 0 <= i < n.len() implies ident_class(#[trigger] s[i]) by {
                assert(s[i] == n[i]);
            }
            lemma_runs_to(s, 0, n.len() as int);
            assert(s.subrange(0, n.len() as int) =~= n);
        },
        TokenModel::Literal(LitModel::Int(v)) => {
            lemma_decimal(v as nat);
            assert(is_ascii_digit(f[0]));
            assert(s[0] == f[0]);
            lemma_no_match_first_char(operator_table(), s, 0, false);
            lemma_no_match_first_char(keyword_table(), s, 0, true);
            lemma_no_match_first_char(datatype_table(), s, 0, true);
            assert forall|i: int| 0 <= i < f.len() implies numeric_class(#[trigger] s[i]) by {
                assert(s[i] == f[i]);
                assert(is_ascii_digit(f[i]));
            }
            lemma_runs_to(s, 0, f.len() as int);
            assert(s.subrange(0, f.len() as int) =~= f);
        },
        TokenModel::Literal(LitModel::Str(x)) => {
            assert(s[0] == '"');
            lemma_no_match_first_char(operator_table(), s, 0, false);
            lemma_no_match_first_char(keyword_table(), s, 0, true);
            lemma_no_match_first_char(datatype_table(), s, 0, true);
            assert forall|i: int| 1 <= i < x.len() + 1 implies #[trigger] s[i] != '"' by {
                assert(s[i] == x[i - 1]);
                if s[i] == '"' {
                    assert(x.contains(x[i - 1]));
                }
            }
            let e = x.len() as int + 1;
            assert(s[e] == '"');
            lemma_quote_run(s, 1, e);
            assert(s.subrange(1, e) =~= x);
        },
    }
    assert(s[f.len() as int] == ' ');
}

/// Re-lexing: write each token of a sequence in its source form, followed by a space, and
/// lex that text; where every token is reconstructable, the same sequence comes back.
pub proof fn lemma_relex_round_trip(ts: Seq<TokenModel>)
    requires
        forall|i: int| 0 <= i < ts.len() ==> reconstructable(#[trigger] ts[i]),
    ensures
        lex_spec(render(ts)) == Ok::<Seq<TokenModel>, crate::lexer::LexError>(ts),
    decreases ts.len(),
{
    if ts.len() == 0 {
        assert(ts =~= seq![]);
    } else {
        let rest = ts.drop_first();
        assert forall|i: int| 0 <= i < rest.len() implies reconstructable(#[trigger] rest[i]) by {
            assert(rest[i] == ts[i + 1]);
        }
        lemma_relex_round_trip(rest);
        let f = source_form(ts[0]);
        let p = f + seq![' '];
        let r = render(rest);
        let s = render(ts);
        assert(s == p + r);
        lemma_token_form(ts[0], r);
        lemma_shift_lex(p, r, 0);
        assert(lex_from(s, f.len() as int + 1) == lex_from(r, 0));
        assert(lex_from(s, f.len() as int) == lex_from(s, f.len() as int + 1));
        assert(seq![ts[0]] + rest =~= ts);
    }
}

} // verus!

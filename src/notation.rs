//! The compact value notation of attribute values: numbers, quoted strings,
//! bare words, parenthesized groups and field maps, nested to any depth.
use vstd::prelude::*;

verus! {

/// A `name: value` entry of a field map.
#[derive(Debug, PartialEq, Eq)]
pub struct LitField {
    pub name: String,
    pub value: Lit,
}

/// A literal of the value notation.
#[derive(Debug, PartialEq, Eq)]
pub enum Lit {
    /// `12`, `-3`
    Int(i64),
    /// `"text"`
    Str(String),
    /// A bare word: `Center`, `true`
    Word(String),
    /// `(a, b)`, or `Name(a, b)` with a leading name
    Group(Option<String>, Vec<Lit>),
    /// `(k: v, ...)`, `{k: v, ...}`, or `Name(k: v, ...)` with a leading name
    Record(Option<String>, Vec<LitField>),
}

/// The mathematical model of a [`Lit`].
pub enum LView {
    Int(int),
    Str(Seq<char>),
    Word(Seq<char>),
    Group(Option<Seq<char>>, Seq<LView>),
    Record(Option<Seq<char>>, Seq<(Seq<char>, LView)>),
}

pub open spec fn opt_chars(o: Option<String>) -> Option<Seq<char>> {
    match o {
        Some(s) => Some(s@),
        None => None,
    }
}

pub open spec fn lits_model(s: Seq<Lit>) -> Seq<LView>
    decreases s,
{
    if s.len() == 0 {
        Seq::empty()
    } else {
        lits_model(s.drop_last()).push(s.last().model())
    }
}

pub open spec fn lit_fields_model(s: Seq<LitField>) -> Seq<(Seq<char>, LView)>
    decreases s,
{
    if s.len() == 0 {
        Seq::empty()
    } else {
        lit_fields_model(s.drop_last()).push((s.last().name@, s.last().value.model()))
    }
}

impl Lit {
    pub open spec fn model(&self) -> LView
        decreases self,
    {
        match self {
            Lit::Int(n) => LView::Int(*n as int),
            Lit::Str(s) => LView::Str(s@),
            Lit::Word(w) => LView::Word(w@),
            Lit::Group(n, items) => LView::Group(opt_chars(*n), lits_model(items@)),
            Lit::Record(n, fs) => LView::Record(opt_chars(*n), lit_fields_model(fs@)),
        }
    }
}

pub proof fn lemma_lits_model_len(s: Seq<Lit>)
    ensures
        lits_model(s).len() == s.len(),
        forall|i: int| 0 <= i < s.len() ==> #[trigger] lits_model(s)[i] == s[i].model(),
    decreases s.len(),
{
    if s.len() > 0 {
        lemma_lits_model_len(s.drop_last());
    }
}

pub proof fn lemma_lit_fields_model_len(s: Seq<LitField>)
    ensures
        lit_fields_model(s).len() == s.len(),
        forall|i: int|
            0 <= i < s.len() ==> #[trigger] lit_fields_model(s)[i] == (s[i].name@, s[i].value.model()),
    decreases s.len(),
{
    if s.len() > 0 {
        lemma_lit_fields_model_len(s.drop_last());
    }
}

/// Relies on std's `String::push`: the character is appended at the end.
#[verifier::external_body]
fn push_char(s: &mut String, c: char)
    ensures
        final(s)@ == old(s)@.push(c),
{
    s.push(c)
}

/// The characters of `s`, one by one.
pub fn chars_of(s: &str) -> (r: Vec<char>)
    ensures
        r@ == s@,
{
    let n = s.unicode_len();
    let mut v: Vec<char> = Vec::new();
    let mut i: usize = 0;
    while i < n
        invariant
            n == s@.len(),
            i <= n,
            v@ == s@.subrange(0, i as int),
        decreases n - i,
    {
        v.push(s.get_char(i));
        i = i + 1;
        assert(v@ =~= s@.subrange(0, i as int));
    }
    assert(s@.subrange(0, n as int) =~= s@);
    v
}

pub open spec fn is_space(c: char) -> bool {
    c == ' ' || c == '\n' || c == '\t' || c == '\r'
}

pub open spec fn is_word_start(c: char) -> bool {
    ('a' <= c && c <= 'z') || ('A' <= c && c <= 'Z') || c == '_'
}

pub open spec fn is_word_char(c: char) -> bool {
    is_word_start(c) || ('0' <= c && c <= '9')
}

pub open spec fn is_digit(c: char) -> bool {
    '0' <= c && c <= '9'
}

/// The first position from `i` on that holds no white space.
pub open spec fn skip(s: Seq<char>, i: int) -> int
    decreases s.len() - i,
{
    if 0 <= i < s.len() && is_space(s[i]) {
        skip(s, i + 1)
    } else {
        i
    }
}

/// The end of the run of word characters that starts at `i`.
pub open spec fn word_end(s: Seq<char>, i: int) -> int
    decreases s.len() - i,
{
    if 0 <= i < s.len() && is_word_char(s[i]) {
        word_end(s, i + 1)
    } else {
        i
    }
}

/// The end of the run of digits that starts at `i`.
pub open spec fn digits_end(s: Seq<char>, i: int) -> int
    decreases s.len() - i,
{
    if 0 <= i < s.len() && is_digit(s[i]) {
        digits_end(s, i + 1)
    } else {
        i
    }
}

/// The value of the decimal digits `s[i..j]`.
pub open spec fn digits_value(s: Seq<char>, i: int, j: int) -> int
    decreases j - i,
{
    if j <= i {
        0
    } else {
        10 * digits_value(s, i, j - 1) + (s[j - 1] as int - '0' as int)
    }
}

/// An integer literal at `i`: an optional `-`, then digits; its value must fit in `i64`.
pub open spec fn int_at(s: Seq<char>, i: int) -> Option<(int, int)> {
    let neg = 0 <= i < s.len() && s[i] == '-';
    let start = if neg {
        i + 1
    } else {
        i
    };
    let j = digits_end(s, start);
    let v = if neg {
        -digits_value(s, start, j)
    } else {
        digits_value(s, start, j)
    };
    if j == start || v < i64::MIN || v > i64::MAX {
        None
    } else {
        Some((v, j))
    }
}

/// What the escape `\c` stands for.
pub open spec fn unescaped(c: char) -> char {
    if c == 'n' {
        '\n'
    } else if c == 't' {
        '\t'
    } else {
        c
    }
}

/// The rest of a quoted string from `j` on, up to and past its closing quote.
pub open spec fn string_from(s: Seq<char>, j: int) -> Option<(Seq<char>, int)>
    decreases s.len() - j,
{
    if j < 0 || j >= s.len() {
        None
    } else if s[j] == '"' {
        Some((Seq::empty(), j + 1))
    } else if s[j] == '\\' {
        if j + 1 >= s.len() {
            None
        } else {
            match string_from(s, j + 2) {
                Some((t, e)) => Some((seq![unescaped(s[j + 1])] + t, e)),
                None => None,
            }
        }
    } else {
        match string_from(s, j + 1) {
            Some((t, e)) => Some((seq![s[j]] + t, e)),
            None => None,
        }
    }
}

/// Whether a field map starts at `k`: a word, white space, then `:`.
pub open spec fn field_starts(s: Seq<char>, k: int) -> bool {
    0 <= k < s.len() && is_word_start(s[k]) && {
        let m = skip(s, word_end(s, k));
        m < s.len() && s[m] == ':'
    }
}

/// The literal that starts at `i` after white space, and the position after it.
pub open spec fn value_at(s: Seq<char>, i: int) -> Option<(LView, int)>
    decreases s.len() - i, 0nat,
{
    let i2 = skip(s, i);
    if i2 < i || i2 >= s.len() {
        None
    } else if s[i2] == '"' {
        match string_from(s, i2 + 1) {
            Some((t, j)) => Some((LView::Str(t), j)),
            None => None,
        }
    } else if s[i2] == '-' || is_digit(s[i2]) {
        match int_at(s, i2) {
            Some((v, j)) => Some((LView::Int(v), j)),
            None => None,
        }
    } else if s[i2] == '(' {
        body_at(s, i2 + 1, None, ')')
    } else if s[i2] == '{' {
        body_at(s, i2 + 1, None, '}')
    } else if is_word_start(s[i2]) {
        let j = word_end(s, i2);
        let k = skip(s, j);
        if k < i2 {
            None
        } else if k < s.len() && s[k] == '(' {
            body_at(s, k + 1, Some(s.subrange(i2, j)), ')')
        } else {
            Some((LView::Word(s.subrange(i2, j)), j))
        }
    } else {
        None
    }
}

/// The inside of a group or field map from `i` on, up to and past `close`.
pub open spec fn body_at(s: Seq<char>, i: int, name: Option<Seq<char>>, close: char) -> Option<
    (LView, int),
>
    decreases s.len() - i, 2nat,
{
    let k = skip(s, i);
    if k < i || k > s.len() {
        None
    } else if k < s.len() && s[k] == close {
        Some((LView::Group(name, Seq::empty()), k + 1))
    } else if field_starts(s, k) {
        fields_from(s, k, name, close, Seq::empty())
    } else {
        items_from(s, k, name, close, Seq::empty())
    }
}

/// The items of a group from `k` on, after the items `acc`.
pub open spec fn items_from(
    s: Seq<char>,
    k: int,
    name: Option<Seq<char>>,
    close: char,
    acc: Seq<LView>,
) -> Option<(LView, int)>
    decreases s.len() - k, 1nat,
{
    if k < 0 || k >= s.len() {
        None
    } else {
        match value_at(s, k) {
            None => None,
            Some((v, p)) => {
                let items = acc.push(v);
                let p2 = skip(s, p);
                if p2 >= s.len() {
                    None
                } else if s[p2] == close {
                    Some((LView::Group(name, items), p2 + 1))
                } else if s[p2] != ',' {
                    None
                } else {
                    let q = skip(s, p2 + 1);
                    if q < s.len() && s[q] == close {
                        Some((LView::Group(name, items), q + 1))
                    } else if q <= k || q > s.len() {
                        None
                    } else {
                        items_from(s, q, name, close, items)
                    }
                }
            },
        }
    }
}

/// The fields of a field map from `k` on, after the fields `acc`.
pub open spec fn fields_from(
    s: Seq<char>,
    k: int,
    name: Option<Seq<char>>,
    close: char,
    acc: Seq<(Seq<char>, LView)>,
) -> Option<(LView, int)>
    decreases s.len() - k, 1nat,
{
    if k < 0 || k >= s.len() || !is_word_start(s[k]) {
        None
    } else {
        let j = word_end(s, k);
        let m = skip(s, j);
        if m < k || m >= s.len() || s[m] != ':' {
            None
        } else {
            match value_at(s, m + 1) {
                None => None,
                Some((v, p)) => {
                    let fields = acc.push((s.subrange(k, j), v));
                    let p2 = skip(s, p);
                    if p2 >= s.len() {
                        None
                    } else if s[p2] == close {
                        Some((LView::Record(name, fields), p2 + 1))
                    } else if s[p2] != ',' {
                        None
                    } else {
                        let q = skip(s, p2 + 1);
                        if q < s.len() && s[q] == close {
                            Some((LView::Record(name, fields), q + 1))
                        } else if q <= k || q > s.len() {
                            None
                        } else {
                            fields_from(s, q, name, close, fields)
                        }
                    }
                },
            }
        }
    }
}

/// The literal that the whole of `s` reads as; white space may surround it.
pub open spec fn notation_of(s: Seq<char>) -> Option<LView> {
    match value_at(s, 0) {
        Some((v, j)) => if skip(s, j) == s.len() {
            Some(v)
        } else {
            None
        },
        None => None,
    }
}

proof fn lemma_skip(s: Seq<char>, i: int)
    requires
        0 <= i <= s.len(),
    ensures
        i <= skip(s, i) <= s.len(),
        skip(s, i) < s.len() ==> !is_space(s[skip(s, i)]),
    decreases s.len() - i,
{
    if i < s.len() && is_space(s[i]) {
        lemma_skip(s, i + 1);
    }
}

proof fn lemma_word_end(s: Seq<char>, i: int)
    requires
        0 <= i <= s.len(),
    ensures
        i <= word_end(s, i) <= s.len(),
        forall|k: int| i <= k < word_end(s, i) ==> is_word_char(#[trigger] s[k]),
        word_end(s, i) < s.len() ==> !is_word_char(s[word_end(s, i)]),
    decreases s.len() - i,
{
    if i < s.len() && is_word_char(s[i]) {
        lemma_word_end(s, i + 1);
    }
}

/// The first position from `i` on that holds no white space.
fn skip_space(s: &Vec<char>, i: usize) -> (r: usize)
    requires
        i <= s@.len(),
    ensures
        r == skip(s@, i as int),
        i <= r <= s@.len(),
{
    proof {
        lemma_skip(s@, i as int);
    }
    let mut j = i;
    while j < s.len() && (s[j] == ' ' || s[j] == '\n' || s[j] == '\t' || s[j] == '\r')
        invariant
            i <= j <= s@.len(),
            skip(s@, i as int) == skip(s@, j as int),
        decreases s@.len() - j,
    {
        j = j + 1;
    }
    j
}

/// A word of letters, digits and underscores that starts at `i`, and the position after it.
fn read_word(s: &Vec<char>, i: usize) -> (r: Option<(String, usize)>)
    requires
        i <= s@.len(),
    ensures
        match r {
            Some((w, j)) => i < s@.len() && is_word_start(s@[i as int]) && j == word_end(
                s@,
                i as int,
            ) && w@ == s@.subrange(i as int, j as int) && i < j <= s@.len(),
            None => i == s@.len() || !is_word_start(s@[i as int]),
        },
{
    if i >= s.len() {
        return None;
    }
    let c = s[i];
    if !(('a' <= c && c <= 'z') || ('A' <= c && c <= 'Z') || c == '_') {
        return None;
    }
    proof {
        lemma_word_end(s@, i as int);
    }
    let mut w = String::new();
    let mut j = i;
    while j < s.len() && (('a' <= s[j] && s[j] <= 'z') || ('A' <= s[j] && s[j] <= 'Z') || s[j]
        == '_' || ('0' <= s[j] && s[j] <= '9'))
        invariant
            i <= j <= s@.len(),
            is_word_start(s@[i as int]),
            w@ == s@.subrange(i as int, j as int),
            word_end(s@, i as int) == word_end(s@, j as int),
        decreases s@.len() - j,
    {
        push_char(&mut w, s[j]);
        j = j + 1;
        assert(w@ =~= s@.subrange(i as int, j as int));
    }
    Some((w, j))
}

proof fn lemma_digits_grow(s: Seq<char>, st: int, j: int, e: int)
    requires
        st <= j <= e,
        forall|k: int| st <= k < e ==> is_digit(#[trigger] s[k]),
    ensures
        digits_value(s, st, j) <= digits_value(s, st, e),
        0 <= digits_value(s, st, j),
    decreases e - st,
{
    if e > st {
        if j < e {
            lemma_digits_grow(s, st, j, e - 1);
        } else {
            lemma_digits_grow(s, st, j - 1, e - 1);
        }
    }
}

/// An integer literal at `i`: an optional `-` and decimal digits that fit in `i64`.
fn read_int(s: &Vec<char>, i: usize) -> (r: Option<(i64, usize)>)
    requires
        i < s@.len(),
    ensures
        match int_at(s@, i as int) {
            Some((v, j)) => r matches Some((n, k)) && n as int == v && k as int == j,
            None => r is None,
        },
{
    let n = s.len();
    let neg = s[i] == '-';
    let start = if neg {
        i + 1
    } else {
        i
    };
    let mut j = start;
    let mut acc: i64 = 0;
    let ghost end = digits_end(s@, start as int);
    proof {
        lemma_digits_end(s@, start as int);
    }
    while j < s.len() && '0' <= s[j] && s[j] <= '9'
        invariant
            start <= j <= end <= s@.len(),
            end == digits_end(s@, start as int),
            digits_end(s@, j as int) == end,
            forall|k: int| start <= k < end ==> is_digit(#[trigger] s@[k]),
            start == if neg {
                i + 1
            } else {
                i as int
            },
            neg == (s@[i as int] == '-'),
            neg ==> acc <= 0,
            !neg ==> acc >= 0,
            acc as int == if neg {
                -digits_value(s@, start as int, j as int)
            } else {
                digits_value(s@, start as int, j as int)
            },
        decreases s@.len() - j,
    {
        let d = (s[j] as u32 - '0' as u32) as i64;
        assert(0 <= d <= 9);
        proof {
            assert(is_digit(s@[j as int]));
            assert(digits_end(s@, j as int) == digits_end(s@, j + 1));
            lemma_digits_end(s@, j + 1);
            lemma_digits_grow(s@, start as int, j + 1, end);
        }
        if neg {
            if acc < -922337203685477580 || (acc == -922337203685477580 && d > 8) {
                assert(acc * 10 - d < i64::MIN) by (nonlinear_arith)
                    requires
                        acc <= -922337203685477580,
                        0 <= d <= 9,
                        acc == -922337203685477580 ==> d > 8,
                ;
                return None;
            }
            assert(i64::MIN <= acc * 10 - d <= 0) by (nonlinear_arith)
                requires
                    -922337203685477580 <= acc <= 0,
                    0 <= d <= 9,
                    acc == -922337203685477580 ==> d <= 8,
            ;
            acc = acc * 10 - d;
        } else {
            if acc > 922337203685477580 || (acc == 922337203685477580 && d > 7) {
                assert(acc * 10 + d > i64::MAX) by (nonlinear_arith)
                    requires
                        acc >= 922337203685477580,
                        0 <= d <= 9,
                        acc == 922337203685477580 ==> d > 7,
                ;
                return None;
            }
            assert(0 <= acc * 10 + d <= i64::MAX) by (nonlinear_arith)
                requires
                    0 <= acc <= 922337203685477580,
                    0 <= d <= 9,
                    acc == 922337203685477580 ==> d <= 7,
            ;
            acc = acc * 10 + d;
        }
        j = j + 1;
    }
    if j == start {
        return None;
    }
    Some((acc, j))
}

proof fn lemma_digits_end(s: Seq<char>, i: int)
    requires
        0 <= i <= s.len(),
    ensures
        i <= digits_end(s, i) <= s.len(),
        forall|k: int| i <= k < digits_end(s, i) ==> is_digit(#[trigger] s[k]),
    decreases s.len() - i,
{
    if i < s.len() && is_digit(s[i]) {
        lemma_digits_end(s, i + 1);
    }
}

/// A quoted string at `i`, with the escapes `\n`, `\t` and `\<c>` for any other `c`.
fn read_string(s: &Vec<char>, i: usize) -> (r: Option<(String, usize)>)
    requires
        i < s@.len(),
        s@[i as int] == '"',
    ensures
        match string_from(s@, i + 1) {
            Some((t, j)) => r matches Some((x, k)) && x@ == t && k as int == j && i < j,
            None => r is None,
        },
{
    let mut out = String::new();
    let n = s.len();
    let mut j = i + 1;
    proof {
        lemma_string_from_end(s@, j as int);
        assert(out@ =~= Seq::<char>::empty());
        if let Some((t, e)) = string_from(s@, j as int) {
            assert(out@ + t =~= t);
        }
    }
    while j < s.len()
        invariant
            i < j,
            n == s@.len(),
            string_from(s@, i + 1) == match string_from(s@, j as int) {
                Some((t, e)) => Some((out@ + t, e)),
                None => None,
            },
            string_from(s@, j as int) matches Some((_, e)) ==> e > j,
        decreases s@.len() - j,
    {
        let c = s[j];
        proof {
            lemma_string_from_end(s@, j as int);
        }
        if c == '"' {
            proof {
                assert(out@ + Seq::<char>::empty() =~= out@);
            }
            return Some((out, j + 1));
        }
        if c == '\\' {
            if j + 1 >= s.len() {
                return None;
            }
            let e = s[j + 1];
            let x = if e == 'n' {
                '\n'
            } else if e == 't' {
                '\t'
            } else {
                e
            };
            let ghost before = out@;
            push_char(&mut out, x);
            proof {
                lemma_string_from_end(s@, j + 2);
                if let Some((t, _)) = string_from(s@, j + 2) {
                    assert(before + (seq![x] + t) =~= out@ + t);
                }
            }
            j = j + 2;
        } else {
            let ghost before = out@;
            push_char(&mut out, c);
            proof {
                lemma_string_from_end(s@, j + 1);
                if let Some((t, _)) = string_from(s@, j + 1) {
                    assert(before + (seq![c] + t) =~= out@ + t);
                }
            }
            j = j + 1;
        }
    }
    None
}

proof fn lemma_string_from_end(s: Seq<char>, j: int)
    ensures
        string_from(s, j) matches Some((_, e)) ==> j < e <= s.len(),
    decreases s.len() - j,
{
    if 0 <= j < s.len() && s[j] != '"' {
        if s[j] == '\\' {
            if j + 1 < s.len() {
                lemma_string_from_end(s, j + 2);
            }
        } else {
            lemma_string_from_end(s, j + 1);
        }
    }
}

/// True where a field map starts at `k`: a word, then `:`.
fn starts_field(s: &Vec<char>, k: usize) -> (r: bool)
    requires
        k <= s@.len(),
    ensures
        r == field_starts(s@, k as int),
{
    match read_word(s, k) {
        Some((_, j)) => {
            let m = skip_space(s, j);
            m < s.len() && s[m] == ':'
        },
        None => false,
    }
}

proof fn lemma_lits_push(s: Seq<Lit>, x: Lit)
    ensures
        lits_model(s.push(x)) == lits_model(s).push(x.model()),
{
    assert(s.push(x).drop_last() =~= s);
}

proof fn lemma_lit_fields_push(s: Seq<LitField>, x: LitField)
    ensures
        lit_fields_model(s.push(x)) == lit_fields_model(s).push((x.name@, x.value.model())),
{
    assert(s.push(x).drop_last() =~= s);
}

/// A literal that starts at `i` (after white space), and the position after it.
fn parse_value(s: &Vec<char>, i: usize) -> (r: Option<(Lit, usize)>)
    requires
        i <= s@.len(),
    ensures
        match value_at(s@, i as int) {
            Some((v, j)) => r matches Some((l, k)) && l.model() == v && k as int == j && i < j
                <= s@.len(),
            None => r is None,
        },
    decreases s@.len() - i, 0nat,
{
    let i2 = skip_space(s, i);
    if i2 >= s.len() {
        return None;
    }
    let c = s[i2];
    proof {
        lemma_string_from_end(s@, i2 + 1);
        lemma_digits_end(s@, i2 as int);
        lemma_digits_end(s@, i2 + 1);
    }
    if c == '"' {
        match read_string(s, i2) {
            Some((t, j)) => Some((Lit::Str(t), j)),
            None => None,
        }
    } else if c == '-' || ('0' <= c && c <= '9') {
        match read_int(s, i2) {
            Some((n, j)) => Some((Lit::Int(n), j)),
            None => None,
        }
    } else if c == '(' {
        parse_body(s, i2 + 1, None, ')')
    } else if c == '{' {
        parse_body(s, i2 + 1, None, '}')
    } else {
        match read_word(s, i2) {
            Some((w, j)) => {
                let k = skip_space(s, j);
                if k < s.len() && s[k] == '(' {
                    proof {
                        assert(opt_chars(Some(w)) == Some(s@.subrange(i2 as int, j as int)));
                    }
                    parse_body(s, k + 1, Some(w), ')')
                } else {
                    Some((Lit::Word(w), j))
                }
            },
            None => None,
        }
    }
}

/// The inside of a group or field map that starts at `i`, up to and including `close`.
fn parse_body(s: &Vec<char>, i: usize, name: Option<String>, close: char) -> (r: Option<
    (Lit, usize),
>)
    requires
        i <= s@.len(),
    ensures
        match body_at(s@, i as int, opt_chars(name), close) {
            Some((v, j)) => r matches Some((l, k)) && l.model() == v && k as int == j && i < j
                <= s@.len(),
            None => r is None,
        },
    decreases s@.len() - i, 2nat,
{
    let ghost nm = opt_chars(name);
    let mut k = skip_space(s, i);
    if k < s.len() && s[k] == close {
        let v: Vec<Lit> = Vec::new();
        proof {
            assert(lits_model(v@) =~= Seq::<LView>::empty());
        }
        return Some((Lit::Group(name, v), k + 1));
    }
    if starts_field(s, k) {
        let mut fields: Vec<LitField> = Vec::new();
        proof {
            assert(lit_fields_model(fields@) =~= Seq::<(Seq<char>, LView)>::empty());
        }
        while k < s.len()
            invariant
                i <= k <= s@.len(),
                nm == opt_chars(name),
                body_at(s@, i as int, nm, close) == fields_from(
                    s@,
                    k as int,
                    nm,
                    close,
                    lit_fields_model(fields@),
                ),
            decreases s@.len() - k,
        {
            let (f, j) = match read_word(s, k) {
                Some(x) => x,
                None => {
                    return None;
                },
            };
            let m = skip_space(s, j);
            if m >= s.len() || s[m] != ':' {
                return None;
            }
            let (v, p) = match parse_value(s, m + 1) {
                Some(x) => x,
                None => {
                    return None;
                },
            };
            let ghost fm = lit_fields_model(fields@);
            let ghost entry = LitField { name: f, value: v };
            proof {
                lemma_lit_fields_push(fields@, entry);
            }
            fields.push(LitField { name: f, value: v });
            let p = skip_space(s, p);
            if p >= s.len() {
                return None;
            }
            if s[p] == close {
                return Some((Lit::Record(name, fields), p + 1));
            }
            if s[p] != ',' {
                return None;
            }
            let q = skip_space(s, p + 1);
            if q < s.len() && s[q] == close {
                return Some((Lit::Record(name, fields), q + 1));
            }
            k = q;
        }
        None
    } else {
        let mut items: Vec<Lit> = Vec::new();
        proof {
            assert(lits_model(items@) =~= Seq::<LView>::empty());
        }
        while k < s.len()
            invariant
                i <= k <= s@.len(),
                nm == opt_chars(name),
                body_at(s@, i as int, nm, close) == items_from(
                    s@,
                    k as int,
                    nm,
                    close,
                    lits_model(items@),
                ),
            decreases s@.len() - k,
        {
            let (v, p) = match parse_value(s, k) {
                Some(x) => x,
                None => {
                    return None;
                },
            };
            proof {
                lemma_lits_push(items@, v);
            }
            items.push(v);
            let p = skip_space(s, p);
            if p >= s.len() {
                return None;
            }
            if s[p] == close {
                return Some((Lit::Group(name, items), p + 1));
            }
            if s[p] != ',' {
                return None;
            }
            let q = skip_space(s, p + 1);
            if q < s.len() && s[q] == close {
                return Some((Lit::Group(name, items), q + 1));
            }
            k = q;
        }
        None
    }
}

/// Reads the whole of `text` as one literal; white space may surround it.
pub fn parse_notation(text: &str) -> (r: Option<Lit>)
    ensures
        match notation_of(text@) {
            Some(v) => r matches Some(l) && l.model() == v,
            None => r is None,
        },
{
    let s = chars_of(text);
    match parse_value(&s, 0) {
        Some((lit, j)) => {
            let k = skip_space(&s, j);
            if k == s.len() {
                Some(lit)
            } else {
                None
            }
        },
        None => None,
    }
}

/// An identifier: a letter or underscore, then letters, digits and underscores.
#[derive(Debug, Clone, PartialEq, Eq)]
pub struct Ident(pub String);

pub open spec fn is_ident(s: Seq<char>) -> bool {
    s.len() > 0 && is_word_start(s[0]) && forall|k: int| 0 <= k < s.len() ==> is_word_char(#[trigger] s[k])
}

impl Ident {
    /// Reads the whole of `text` as an identifier.
    pub fn parse(text: &str) -> (r: Option<Ident>)
        ensures
            match r {
                Some(id) => is_ident(text@) && id.0@ == text@,
                None => !is_ident(text@),
            },
    {
        let s = chars_of(text);
        proof {
            lemma_word_end(s@, 0);
        }
        match read_word(&s, 0) {
            Some((w, j)) => if j == s.len() {
                proof {
                    assert(s@.subrange(0, j as int) =~= s@);
                }
                Some(Ident(w))
            } else {
                proof {
                    assert(!is_word_char(s@[j as int]));
                }
                None
            },
            None => None,
        }
    }
}

} // verus!

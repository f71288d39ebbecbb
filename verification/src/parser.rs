//! The parsing pipeline: grammar matching into a token tree, tree
//! building, and the keyword reduction. Each step is specified against
//! the functions of [`crate::model`].

use vstd::prelude::*;
pub use crate::data::{Data, KeywordMap};
use crate::model::{
    DataV, TokenV, TokOutV, StrScanV, SdnErrV, ParseOutV, Expected, is_ws_char,
    is_digit_char, is_atom_char, is_escape_code, escape_val, decode_str, scan_string,
    run_len, tok_run, spec_tokenize, is_int_text, is_float_text, is_float_body,
    all_digit_chars, digit_val, digits_val, int_val, build_tok, build_toks, reduce_step,
    reduce_list, has_key, spec_parse, lemma_digits_val_extend, lemma_digits_val_grows,
    wf_token, wf_tokens, lemma_tok_run_wf,
};

verus! {

/// One node of the token tree the grammar matcher produces. Atom tokens
/// carry their text exactly as written: a keyword keeps its leading
/// marker and a string keeps its escape sequences undecoded. `End`
/// marks end of input.
#[derive(Debug, PartialEq, Eq)]
pub enum Token {
    List(Vec<Token>),
    IntT(String),
    FloatT(String),
    StrT(String),
    SymT(String),
    KwT(String),
    End,
}

impl DeepView for Token {
    type V = TokenV;

    open spec fn deep_view(&self) -> TokenV
        decreases self,
    {
        match self {
            Token::List(children) => TokenV::List(
                Seq::new(
                    children@.len(),
                    |i: int|
                        if 0 <= i < children@.len() {
                            children@[i].deep_view()
                        } else {
                            TokenV::End
                        },
                ),
            ),
            Token::IntT(t) => TokenV::IntT(t@),
            Token::FloatT(t) => TokenV::FloatT(t@),
            Token::StrT(t) => TokenV::StrT(t@),
            Token::SymT(t) => TokenV::SymT(t@),
            Token::KwT(t) => TokenV::KwT(t@),
            Token::End => TokenV::End,
        }
    }
}

/// The text failed to match the grammar: `pos` is the character offset
/// at which matching stopped, `expected` what could have continued it.
#[derive(Debug, PartialEq, Eq, Structural, Clone, Copy)]
pub struct GrammarError {
    pub pos: usize,
    pub expected: Expected,
}

/// The text matched the grammar, but building the value tree failed;
/// each variant names the offending keyword or token text.
#[derive(Debug, PartialEq, Eq)]
pub enum BuildError {
    /// A keyword stood without a following value, or directly before
    /// another keyword.
    DanglingKeyword(String),
    /// The same keyword was given twice in one list.
    DuplicateKeyword(String),
    /// An integer token whose value does not fit 64 signed bits.
    IntOutOfRange(String),
}

impl DeepView for BuildError {
    type V = SdnErrV;

    open spec fn deep_view(&self) -> SdnErrV {
        match self {
            BuildError::DanglingKeyword(n) => SdnErrV::Dangling(n@),
            BuildError::DuplicateKeyword(n) => SdnErrV::Duplicate(n@),
            BuildError::IntOutOfRange(t) => SdnErrV::IntRange(t@),
        }
    }
}

/// What one parse call returns: the top-level values, or the first
/// error, grammar errors before building ones.
#[derive(Debug, PartialEq, Eq)]
pub enum ParserResult {
    Success(Vec<Data>),
    GrammarError(GrammarError),
    BuildError(BuildError),
}

// ---------------------------------------------------------------------------
// Character tests
// ---------------------------------------------------------------------------

fn is_ws(c: char) -> (r: bool)
    ensures
        r == is_ws_char(c),
{
    c == ' ' || c == '\t' || c == '\n' || c == '\r'
}

fn is_digit(c: char) -> (r: bool)
    ensures
        r == is_digit_char(c),
{
    c >= '0' && c <= '9'
}

fn is_atom(c: char) -> (r: bool)
    ensures
        r == is_atom_char(c),
{
    !is_ws(c) && c != '(' && c != ')' && c != '"'
}

fn is_escape(c: char) -> (r: bool)
    ensures
        r == is_escape_code(c),
{
    c == 'n' || c == 't' || c == '"' || c == '\\'
}

fn escape_value(c: char) -> (r: char)
    ensures
        r == escape_val(c),
{
    if c == 'n' {
        '\n'
    } else if c == 't' {
        '\t'
    } else if c == '"' {
        '"'
    } else {
        '\\'
    }
}

// ---------------------------------------------------------------------------
// The escape decoder
// ---------------------------------------------------------------------------

impl Data {
    /// Decode the inner text of a string token: `\n`, `\t`, `\"` and
    /// `\\` become the escaped character, everything else is copied
    /// verbatim. The grammar admits no other backslash sequence, so a
    /// lone trailing backslash is copied as it stands.
    pub fn parse_string(raw: &str) -> (r: String)
        ensures
            r@ == decode_str(raw@),
    {
        let n = raw.unicode_len();
        let mut out = String::new();
        let mut j: usize = 0;
        proof {
            assert(raw@.skip(0) =~= raw@);
            assert(out@ + decode_str(raw@) =~= decode_str(raw@));
        }
        while j < n
            invariant
                n == raw@.len(),
                j <= n,
                decode_str(raw@) == out@ + decode_str(raw@.skip(j as int)),
            decreases n - j,
        {
            let c = raw.get_char(j);
            let ghost rest = raw@.skip(j as int);
            proof {
                assert(rest[0] == raw@[j as int]);
            }
            if c == '\\' && j + 1 < n {
                let e = raw.get_char(j + 1);
                out.push(escape_value(e));
                proof {
                    assert(rest.skip(2) =~= raw@.skip(j + 2));
                    assert(decode_str(rest) == seq![escape_val(e)] + decode_str(raw@.skip(j + 2)));
                    assert(out@ + decode_str(raw@.skip(j + 2)) =~= decode_str(raw@));
                }
                j = j + 2;
            } else {
                out.push(c);
                proof {
                    assert(rest.skip(1) =~= raw@.skip(j + 1));
                    if c == '\\' {
                        assert(rest.len() == 1);
                        assert(decode_str(rest) == seq![rest[0]] + decode_str(rest.skip(1)));
                    }
                    assert(decode_str(rest) == seq![c] + decode_str(raw@.skip(j + 1)));
                    assert(out@ + decode_str(raw@.skip(j + 1)) =~= decode_str(raw@));
                }
                j = j + 1;
            }
        }
        proof {
            assert(raw@.skip(n as int) =~= Seq::<char>::empty());
            assert(out@ =~= decode_str(raw@));
        }
        out
    }
}

// ---------------------------------------------------------------------------
// Numeric token text
// ---------------------------------------------------------------------------

/// Does the text have the shape `'-'? digit+`?
fn check_int_text(t: &str) -> (r: bool)
    ensures
        r == is_int_text(t@),
{
    let n = t.unicode_len();
    if n == 0 {
        return false;
    }
    let start: usize = if t.get_char(0) == '-' {
        1
    } else {
        0
    };
    if n == start {
        return false;
    }
    let mut j: usize = start;
    while j < n
        invariant
            n == t@.len(),
            start <= j <= n,
            start == (if t@[0] == '-' {
                1int
            } else {
                0int
            }),
            0 < n,
            start < n,
            forall|i: int| start <= i < j ==> is_digit_char(#[trigger] t@[i]),
        decreases n - j,
    {
        let c = t.get_char(j);
        if !is_digit(c) {
            proof {
                assert(!is_digit_char(t@[j as int]));
                if start == 1 {
                    assert(t@.skip(1)[j - 1] == t@[j as int]);
                    assert(!all_digit_chars(t@.skip(1)));
                } else {
                    assert(!all_digit_chars(t@));
                }
                assert(!is_int_text(t@));
            }
            return false;
        }
        j = j + 1;
    }
    proof {
        if start == 1 {
            assert(forall|i: int|
                0 <= i < t@.skip(1).len() ==> #[trigger] t@.skip(1)[i] == t@[i + 1]);
        }
    }
    true
}

/// A float body `digit+ '.' digit+` characterized by its first
/// non-digit position.
proof fn lemma_float_body_shape(body: Seq<char>, p: int)
    requires
        0 <= p <= body.len(),
        forall|i: int| 0 <= i < p ==> is_digit_char(#[trigger] body[i]),
        p == body.len() || !is_digit_char(body[p]),
    ensures
        is_float_body(body) <==> (1 <= p && p + 1 < body.len() && body[p] == '.' && forall|i: int|
            p < i < body.len() ==> is_digit_char(#[trigger] body[i])),
{
    if 1 <= p && p + 1 < body.len() && body[p] == '.' && forall|i: int|
        p < i < body.len() ==> is_digit_char(#[trigger] body[i]) {
        assert(all_digit_chars(body.take(p))) by {
            assert(forall|i: int| 0 <= i < p ==> #[trigger] body.take(p)[i] == body[i]);
        }
        assert(all_digit_chars(body.skip(p + 1))) by {
            assert(forall|i: int|
                0 <= i < body.len() - p - 1 ==> #[trigger] body.skip(p + 1)[i] == body[i + p + 1]);
        }
        assert(is_float_body(body));
    }
    if is_float_body(body) {
        let k = choose|k: int|
            1 <= k < body.len() - 1 && #[trigger] body[k] == '.' && all_digit_chars(body.take(k))
                && all_digit_chars(body.skip(k + 1));
        assert(!is_digit_char(body[k]));
        if k < p {
            assert(is_digit_char(body[k]));
            assert(false);
        } else if k > p {
            assert(p < body.len());
            assert(body.take(k)[p] == body[p]);
            assert(is_digit_char(body[p]));
            assert(false);
        }
        assert(k == p);
        assert forall|i: int| p < i < body.len() implies is_digit_char(#[trigger] body[i]) by {
            assert(body.skip(p + 1)[i - p - 1] == body[i]);
        }
    }
}

/// Does the text have the shape `'-'? digit+ '.' digit+`?
fn check_float_text(t: &str) -> (r: bool)
    ensures
        r == is_float_text(t@),
{
    let n = t.unicode_len();
    if n == 0 {
        proof {
            assert(!is_float_body(t@));
        }
        return false;
    }
    let start: usize = if t.get_char(0) == '-' {
        1
    } else {
        0
    };
    let ghost body = t@.skip(start as int);
    proof {
        assert(forall|i: int| 0 <= i < body.len() ==> #[trigger] body[i] == t@[i + start]);
        if start == 0 {
            assert(body =~= t@);
        }
    }
    // digits before the dot
    let mut p: usize = start;
    while p < n && is_digit(t.get_char(p))
        invariant
            n == t@.len(),
            start <= p <= n,
            forall|i: int| start <= i < p ==> is_digit_char(#[trigger] t@[i]),
        decreases n - p,
    {
        p = p + 1;
    }
    proof {
        assert(forall|i: int| 0 <= i < p - start ==> is_digit_char(#[trigger] body[i]));
    }
    if p == n || t.get_char(p) != '.' || p == start || p + 1 == n {
        proof {
            lemma_float_body_shape(body, p - start);
        }
        return false;
    }
    let mut q: usize = p + 1;
    while q < n && is_digit(t.get_char(q))
        invariant
            n == t@.len(),
            p + 1 <= q <= n,
            forall|i: int| p < i < q ==> is_digit_char(#[trigger] t@[i]),
        decreases n - q,
    {
        q = q + 1;
    }
    proof {
        lemma_float_body_shape(body, p - start);
    }
    if q < n {
        proof {
            assert(!is_digit_char(body[q - start]));
        }
        return false;
    }
    proof {
        assert(forall|i: int| p - start < i < body.len() ==> is_digit_char(#[trigger] body[i]));
    }
    true
}

// ---------------------------------------------------------------------------
// Small facts about deep views of vectors
// ---------------------------------------------------------------------------

proof fn lemma_deep_view_push<T: DeepView>(v1: Vec<T>, v2: Vec<T>, x: T)
    requires
        v2@ == v1@.push(x),
    ensures
        v2.deep_view() == v1.deep_view().push(x.deep_view()),
{
    assert(v2.deep_view() =~= v1.deep_view().push(x.deep_view()));
}

proof fn lemma_deep_view_remove_first<T: DeepView>(v1: Vec<T>, v2: Vec<T>)
    requires
        v1@.len() > 0,
        v2@ == v1@.remove(0),
    ensures
        v2.deep_view() == v1.deep_view().drop_first(),
        v1.deep_view().len() > 0,
        v1.deep_view()[0] == v1@[0].deep_view(),
{
    assert(v1@.remove(0) =~= v1@.drop_first());
    assert(v2.deep_view() =~= v1.deep_view().drop_first());
}

/// Magnitude bound of a 64-bit signed integer.
const I64_MAG: u64 = 9223372036854775808;

/// Parse the text of an integer token. `None` exactly when the value
/// does not fit 64 signed bits.
fn parse_i64(t: &str) -> (r: Option<i64>)
    requires
        is_int_text(t@),
    ensures
        match r {
            Some(v) => i64::MIN <= int_val(t@) <= i64::MAX && v as int == int_val(t@),
            None => !(i64::MIN <= int_val(t@) <= i64::MAX),
        },
{
    let n = t.unicode_len();
    let neg = t.get_char(0) == '-';
    let start: usize = if neg {
        1
    } else {
        0
    };
    let ghost digs = t@.skip(start as int);
    proof {
        assert(forall|i: int| 0 <= i < digs.len() ==> #[trigger] digs[i] == t@[i + start]);
        assert(all_digit_chars(digs));
        assert(digs.take(0) =~= Seq::<char>::empty());
    }
    let mut acc: u64 = 0;
    let mut j: usize = start;
    while j < n
        invariant
            n == t@.len(),
            start <= j <= n,
            start < n,
            is_int_text(t@),
            neg == (t@[0] == '-'),
            start == (if neg {
                1int
            } else {
                0int
            }),
            digs == t@.skip(start as int),
            all_digit_chars(digs),
            acc <= I64_MAG,
            acc as int == digits_val(digs.take(j - start)),
        decreases n - j,
    {
        let c = t.get_char(j);
        proof {
            assert(digs[j - start] == t@[j as int]);
        }
        let d: u64 = (c as u32 - 48) as u64;
        proof {
            assert(d as int == digit_val(c));
            assert(d <= 9);
        }
        if acc > (I64_MAG - d) / 10 {
            proof {
                let v = acc as int;
                let lim = I64_MAG as int;
                assert(v * 10 + d > lim) by (nonlinear_arith)
                    requires
                        v > (lim - d) / 10,
                        0 <= d <= 9,
                        lim == 9223372036854775808,
                        0 <= v,
                ;
                lemma_digits_val_extend(digs, j - start);
                lemma_digits_val_grows(digs, j - start + 1, lim);
                assert(digits_val(digs) > lim);
                if neg {
                    assert(int_val(t@) == -digits_val(digs));
                } else {
                    assert(digs =~= t@);
                }
            }
            return None;
        }
        proof {
            let v = acc as int;
            let lim = I64_MAG as int;
            assert(v * 10 + d <= lim) by (nonlinear_arith)
                requires
                    v <= (lim - d) / 10,
                    0 <= d <= 9,
                    lim == 9223372036854775808,
                    0 <= v,
            ;
            lemma_digits_val_extend(digs, j - start);
        }
        acc = acc * 10 + d;
        j = j + 1;
    }
    proof {
        assert(digs.take(n - start) =~= digs);
        if neg {
            assert(int_val(t@) == -digits_val(digs));
        } else {
            assert(digs =~= t@);
            assert(int_val(t@) == digits_val(digs));
        }
    }
    if neg {
        if acc == I64_MAG {
            Some(i64::MIN)
        } else {
            Some(-(acc as i64))
        }
    } else {
        if acc == I64_MAG {
            None
        } else {
            Some(acc as i64)
        }
    }
}

// ---------------------------------------------------------------------------
// The keyword reduction
// ---------------------------------------------------------------------------

/// Is `k` already present as a key?
fn contains_key(map: &KeywordMap, k: &String) -> (r: bool)
    ensures
        r == has_key(map.deep_view(), k@),
{
    let mut idx: usize = 0;
    while idx < map.len()
        invariant
            idx <= map@.len(),
            forall|i: int| 0 <= i < idx ==> (#[trigger] map.deep_view()[i]).0 != k@,
        decreases map@.len() - idx,
    {
        proof {
            assert(map.deep_view()[idx as int].0 == map@[idx as int].0@);
        }
        if map[idx].0 == *k {
            return true;
        }
        idx = idx + 1;
    }
    false
}

impl Data {
    /// Split a list's already-built children into positional arguments
    /// and a keyword map, scanning left to right: a keyword makes its
    /// name pending, the next non-keyword child becomes its value, and
    /// a pending name at a keyword or at the end, or a name already
    /// mapped, fails with the error naming it.
    #[verifier::loop_isolation(false)]
    pub fn parse_list(mut list: Vec<Data>) -> (r: Result<(Vec<Data>, KeywordMap), BuildError>)
        ensures
            match r {
                Ok(p) => reduce_list(list.deep_view()) == Ok::<
                    (Seq<DataV>, Seq<(Seq<char>, DataV)>),
                    SdnErrV,
                >((p.0.deep_view(), p.1.deep_view())),
                Err(e) => reduce_list(list.deep_view()) == Err::<
                    (Seq<DataV>, Seq<(Seq<char>, DataV)>),
                    SdnErrV,
                >(e.deep_view()),
            },
    {
        let ghost orig = list.deep_view();
        let mut vec: Vec<Data> = Vec::new();
        let mut map: KeywordMap = Vec::new();
        let mut current_kw: Option<String> = None;
        proof {
            assert(vec.deep_view() =~= Seq::<DataV>::empty());
            assert(map.deep_view() =~= Seq::<(Seq<char>, DataV)>::empty());
        }
        while list.len() > 0
            invariant
                reduce_list(orig) == reduce_step(
                    list.deep_view(),
                    vec.deep_view(),
                    map.deep_view(),
                    current_kw.deep_view(),
                ),
            decreases list@.len(),
        {
            let ghost pre = list;
            let element = list.remove(0);
            proof {
                lemma_deep_view_remove_first(pre, list);
            }
            if let Data::Keyword(name) = element {
                match current_kw {
                    Some(prev) => {
                        return Err(BuildError::DanglingKeyword(prev));
                    },
                    None => {
                        current_kw = Some(name);
                    },
                }
            } else {
                match current_kw {
                    Some(kw) => {
                        if contains_key(&map, &kw) {
                            return Err(BuildError::DuplicateKeyword(kw));
                        }
                        let ghost mappre = map;
                        map.push((kw, element));
                        proof {
                            lemma_deep_view_push(mappre, map, (kw, element));
                        }
                        current_kw = None;
                    },
                    None => {
                        let ghost vecpre = vec;
                        vec.push(element);
                        proof {
                            lemma_deep_view_push(vecpre, vec, element);
                        }
                    },
                }
            }
        }
        match current_kw {
            Some(kw) => Err(BuildError::DanglingKeyword(kw)),
            None => {
                proof {
                    assert(list.deep_view() =~= Seq::<DataV>::empty());
                }
                Ok((vec, map))
            },
        }
    }
}

proof fn lemma_deep_view_pop<T: DeepView>(v1: Vec<T>, v2: Vec<T>)
    requires
        v1@.len() > 0,
        v2@ == v1@.drop_last(),
    ensures
        v2.deep_view() == v1.deep_view().drop_last(),
        v1.deep_view().len() > 0,
        v1.deep_view().last() == v1@.last().deep_view(),
{
    assert(v2.deep_view() =~= v1.deep_view().drop_last());
}

// ---------------------------------------------------------------------------
// The grammar matcher
// ---------------------------------------------------------------------------

/// Scan the inside of a string literal, `from` standing just after the
/// opening quote; deliver the undecoded inner text and the position
/// after the closing quote.
#[verifier::loop_isolation(false)]
fn scan_str(s: &str, from: usize) -> (r: Result<(String, usize), GrammarError>)
    requires
        from <= s@.len(),
    ensures
        match r {
            Ok(p) => scan_string(s@, from as int) == (StrScanV::Done {
                raw: p.0@,
                end: p.1 as int,
            }) && from < p.1 <= s@.len(),
            Err(e) => match scan_string(s@, from as int) {
                StrScanV::Done { .. } => false,
                StrScanV::BadEscape { at } => e.pos == at && e.expected == Expected::EscapeChar,
                StrScanV::Unterminated => e.pos == s@.len() && e.expected == Expected::CloseQuote,
            },
        },
{
    let n = s.unicode_len();
    let mut raw = String::new();
    let mut j: usize = from;
    proof {
        assert(raw@ + scan_string(s@, from as int)->Done_raw =~= scan_string(
            s@,
            from as int,
        )->Done_raw);
    }
    while j < n
        invariant
            from <= j <= n,
            scan_string(s@, from as int) == (match scan_string(s@, j as int) {
                StrScanV::Done { raw: r2, end } => StrScanV::Done { raw: raw@ + r2, end },
                other => other,
            }),
        decreases n - j,
    {
        let c = s.get_char(j);
        if c == '"' {
            proof {
                assert(raw@ + Seq::<char>::empty() =~= raw@);
            }
            return Ok((raw, j + 1));
        } else if c == '\\' {
            if j + 1 < n {
                let e2 = s.get_char(j + 1);
                if is_escape(e2) {
                    let ghost rawpre = raw@;
                    raw.push(c);
                    raw.push(e2);
                    proof {
                        if scan_string(s@, j + 2) is Done {
                            let r2 = scan_string(s@, j + 2)->Done_raw;
                            assert(rawpre + (seq![c, e2] + r2) =~= raw@ + r2);
                        }
                    }
                    j = j + 2;
                } else {
                    return Err(GrammarError { pos: j + 1, expected: Expected::EscapeChar });
                }
            } else {
                return Err(GrammarError { pos: n, expected: Expected::EscapeChar });
            }
        } else {
            let ghost rawpre = raw@;
            raw.push(c);
            proof {
                if scan_string(s@, j + 1) is Done {
                    let r2 = scan_string(s@, j + 1)->Done_raw;
                    assert(rawpre + (seq![c] + r2) =~= raw@ + r2);
                }
            }
            j = j + 1;
        }
    }
    Err(GrammarError { pos: n, expected: Expected::CloseQuote })
}

/// Match the source text against the grammar and deliver its token
/// tree: the top-level tokens followed by the end-of-input marker, or
/// the position and expectation at which matching stopped.
#[verifier::loop_isolation(false)]
pub fn tokenize(s: &str) -> (r: Result<Vec<Token>, GrammarError>)
    ensures
        match r {
            Ok(toks) => spec_tokenize(s@) == TokOutV::Toks(toks.deep_view()),
            Err(e) => spec_tokenize(s@) == (TokOutV::Fail {
                pos: e.pos as int,
                expected: e.expected,
            }),
        },
{
    let n = s.unicode_len();
    let mut i: usize = 0;
    let mut acc: Vec<Token> = Vec::new();
    let mut stack: Vec<Vec<Token>> = Vec::new();
    proof {
        assert(acc.deep_view() =~= Seq::<TokenV>::empty());
        assert(stack.deep_view() =~= Seq::<Seq<TokenV>>::empty());
    }
    while i < n
        invariant
            i <= n,
            tok_run(s@, i as int, acc.deep_view(), stack.deep_view()) == spec_tokenize(s@),
        decreases n - i,
    {
        let c = s.get_char(i);
        if is_ws(c) {
            i = i + 1;
        } else if c == '(' {
            let ghost stackpre = stack;
            let ghost accpre = acc;
            stack.push(acc);
            acc = Vec::new();
            proof {
                lemma_deep_view_push(stackpre, stack, accpre);
                assert(acc.deep_view() =~= Seq::<TokenV>::empty());
            }
            i = i + 1;
        } else if c == ')' {
            if stack.len() == 0 {
                return Err(GrammarError { pos: i, expected: Expected::Expression });
            }
            let ghost accd = acc.deep_view();
            let ghost stackpre = stack;
            let mut top = match stack.pop() {
                Some(v) => v,
                None => Vec::new(),
            };
            proof {
                lemma_deep_view_pop(stackpre, stack);
            }
            let lst = Token::List(acc);
            proof {
                assert(lst.deep_view()->List_0 =~= accd);
                assert(lst.deep_view() == TokenV::List(accd));
            }
            let ghost toppre = top;
            top.push(lst);
            proof {
                lemma_deep_view_push(toppre, top, lst);
            }
            acc = top;
            i = i + 1;
        } else if c == '"' {
            match scan_str(s, i + 1) {
                Ok(p) => {
                    let (raw, end) = p;
                    let tok = Token::StrT(raw);
                    let ghost accpre = acc;
                    acc.push(tok);
                    proof {
                        lemma_deep_view_push(accpre, acc, tok);
                    }
                    i = end;
                },
                Err(e) => {
                    return Err(e);
                },
            }
        } else {
            // an atom run
            let mut j: usize = i;
            let mut text = String::new();
            while j < n && is_atom(s.get_char(j))
                invariant
                    i <= j <= n,
                    text@ == s@.subrange(i as int, j as int),
                    run_len(s@, i as int) == (j - i) + run_len(s@, j as int),
                decreases n - j,
            {
                let ghost textpre = text@;
                text.push(s.get_char(j));
                proof {
                    assert(textpre.push(s@[j as int]) =~= s@.subrange(i as int, j + 1));
                }
                j = j + 1;
            }
            proof {
                assert(run_len(s@, j as int) == 0);
                assert(text@ == s@.subrange(i as int, i + run_len(s@, i as int)));
            }
            let rl = j - i;
            let c0 = s.get_char(i);
            proof {
                assert(text@[0] == s@[i as int]);
            }
            let tok: Token;
            if c0 == ':' {
                tok = Token::KwT(text);
            } else if check_float_text(text.as_str()) {
                tok = Token::FloatT(text);
            } else if check_int_text(text.as_str()) {
                tok = Token::IntT(text);
            } else if is_digit(c0) {
                return Err(GrammarError { pos: i, expected: Expected::Digit });
            } else if c0 == '-' && rl >= 2 && is_digit(s.get_char(i + 1)) {
                proof {
                    assert(text@[1] == s@[i + 1]);
                }
                return Err(GrammarError { pos: i, expected: Expected::Digit });
            } else {
                proof {
                    if text@.len() >= 2 {
                        assert(text@[1] == s@[i + 1]);
                    }
                }
                tok = Token::SymT(text);
            }
            let ghost accpre = acc;
            acc.push(tok);
            proof {
                lemma_deep_view_push(accpre, acc, tok);
            }
            i = j;
        }
    }
    if stack.len() > 0 {
        return Err(GrammarError { pos: n, expected: Expected::CloseParen });
    }
    let ghost accpre = acc;
    acc.push(Token::End);
    proof {
        lemma_deep_view_push(accpre, acc, Token::End);
    }
    Ok(acc)
}

// ---------------------------------------------------------------------------
// The tree builder
// ---------------------------------------------------------------------------

impl Data {
    /// Convert one token (and recursively its children) into a value:
    /// numeric text to its value, a string's inner text through the
    /// escape decoder, a keyword stripped of its marker, a list through
    /// the keyword reduction, the end-of-input marker to `Nil`.
    #[verifier::loop_isolation(false)]
    pub fn parse_pair(arg: Token) -> (r: Result<Data, BuildError>)
        requires
            wf_token(arg.deep_view()),
        ensures
            match r {
                Ok(d) => build_tok(arg.deep_view()) == Ok::<DataV, SdnErrV>(d.deep_view()),
                Err(e) => build_tok(arg.deep_view()) == Err::<DataV, SdnErrV>(e.deep_view()),
            },
        decreases arg,
    {
        match arg {
            Token::List(mut children) => {
                let ghost vec0 = children;
                let ghost children0 = children@;
                let ghost childrenv = children.deep_view();
                proof {
                    assert(arg->List_0 == vec0);
                    assert(arg.deep_view()->List_0 =~= childrenv);
                    assert(children@ == children0.skip(0));
                    assert(children.deep_view() =~= childrenv.skip(0));
                }
                let mut vals: Vec<Data> = Vec::new();
                proof {
                    assert(vals.deep_view() =~= Seq::<DataV>::empty());
                }
                while children.len() > 0
                    invariant
                        vals@.len() + children@.len() == children0.len(),
                        children@ == children0.skip(vals@.len() as int),
                        children.deep_view() == childrenv.skip(vals@.len() as int),
                        build_toks(childrenv) == (match build_toks(children.deep_view()) {
                            Ok(vs) => Ok::<Seq<DataV>, SdnErrV>(vals.deep_view() + vs),
                            Err(e) => Err::<Seq<DataV>, SdnErrV>(e),
                        }),
                    decreases children@.len(),
                {
                    let ghost pre = children;
                    let ghost k = vals@.len() as int;
                    let child = children.remove(0);
                    proof {
                        lemma_deep_view_remove_first(pre, children);
                        assert(children@ =~= children0.skip(k + 1));
                        assert(children.deep_view() =~= childrenv.skip(k + 1));
                        assert(child == children0[k]);
                        assert(decreases_to!(arg => vec0));
                        assert(decreases_to!(vec0 => children0[k]));
                        assert(decreases_to!(arg => child));
                        assert(child.deep_view() == childrenv[k]);
                        assert(wf_token(child.deep_view()));
                    }
                    match Data::parse_pair(child) {
                        Ok(d) => {
                            let ghost valspre = vals;
                            vals.push(d);
                            proof {
                                lemma_deep_view_push(valspre, vals, d);
                                assert(build_toks(pre.deep_view()) == (
                                match build_toks(children.deep_view()) {
                                    Ok(vs) => Ok::<Seq<DataV>, SdnErrV>(
                                        seq![d.deep_view()] + vs,
                                    ),
                                    Err(e) => Err::<Seq<DataV>, SdnErrV>(e),
                                }));
                                if build_toks(children.deep_view()) is Ok {
                                    let vs = build_toks(children.deep_view())->Ok_0;
                                    assert(valspre.deep_view() + (seq![d.deep_view()] + vs)
                                        =~= vals.deep_view() + vs);
                                }
                            }
                        },
                        Err(e) => {
                            return Err(e);
                        },
                    }
                }
                proof {
                    assert(children.deep_view() =~= Seq::<TokenV>::empty());
                    assert(vals.deep_view() + Seq::<DataV>::empty() =~= vals.deep_view());
                    assert(build_toks(childrenv) == Ok::<Seq<DataV>, SdnErrV>(vals.deep_view()));
                }
                match Data::parse_list(vals) {
                    Ok(p) => {
                        let (pargs, pkw) = p;
                        let ghost ga = pargs.deep_view();
                        let ghost gk = pkw.deep_view();
                        let ghost pkwseq = pkw@;
                        let d = Data::List { args: pargs, kwargs: pkw };
                        proof {
                            assert(d.deep_view()->List_args =~= ga);
                            assert forall|i: int| 0 <= i < pkwseq.len() implies d.deep_view()
                                ->List_kwargs[i] == (#[trigger] gk[i]) by {
                                assert(gk[i] == pkwseq[i].deep_view());
                            }
                            assert(d.deep_view()->List_kwargs =~= gk);
                        }
                        Ok(d)
                    },
                    Err(e) => Err(e),
                }
            },
            Token::IntT(txt) => {
                match parse_i64(txt.as_str()) {
                    Some(v) => Ok(Data::Int(v)),
                    None => Err(BuildError::IntOutOfRange(txt)),
                }
            },
            Token::FloatT(txt) => Ok(Data::Float(txt)),
            Token::StrT(raw) => Ok(Data::Str(Data::parse_string(raw.as_str()))),
            Token::SymT(txt) => Ok(Data::Symbol(txt)),
            Token::KwT(txt) => {
                let l = txt.as_str().unicode_len();
                let rest = txt.as_str().substring_char(1, l);
                proof {
                    assert(rest@ =~= txt@.drop_first());
                }
                Ok(Data::Keyword(rest.to_owned()))
            },
            Token::End => Ok(Data::Nil),
        }
    }
}

// ---------------------------------------------------------------------------
// The parse entry point
// ---------------------------------------------------------------------------

/// Parse source text into the ordered sequence of top-level values.
///
/// Exactly one of three things comes back: the values; a grammar error
/// with the position at which matching stopped and what was expected
/// there; or a building error naming the keyword or integer token at
/// fault. The trailing `Nil` produced by the end-of-input marker is
/// dropped, so `Nil` never appears in the result.
#[verifier::loop_isolation(false)]
pub fn parse(data: &str) -> (r: ParserResult)
    ensures
        match spec_parse(data@) {
            ParseOutV::Vals(vs) => (r matches ParserResult::Success(o) && o.deep_view() == vs),
            ParseOutV::GrammarFail { pos, expected } => (r matches ParserResult::GrammarError(e)
                && e.pos == pos && e.expected == expected),
            ParseOutV::BuildFail(be) => (r matches ParserResult::BuildError(b) && b.deep_view()
                == be),
        },
{
    match tokenize(data) {
        Err(e) => ParserResult::GrammarError(e),
        Ok(toks) => {
            let ghost ts = toks.deep_view();
            proof {
                lemma_tok_run_wf(data@, 0, Seq::empty(), Seq::empty());
                assert(wf_tokens(ts));
            }
            let mut rem = toks;
            let mut vals: Vec<Data> = Vec::new();
            proof {
                assert(vals.deep_view() =~= Seq::<DataV>::empty());
                assert(rem.deep_view() =~= ts.skip(0));
            }
            while rem.len() > 0
                invariant
                    vals@.len() + rem@.len() == ts.len(),
                    rem.deep_view() == ts.skip(vals@.len() as int),
                    build_toks(ts) == (match build_toks(rem.deep_view()) {
                        Ok(vs) => Ok::<Seq<DataV>, SdnErrV>(vals.deep_view() + vs),
                        Err(e) => Err::<Seq<DataV>, SdnErrV>(e),
                    }),
                decreases rem@.len(),
            {
                let ghost pre = rem;
                let ghost k = vals@.len() as int;
                let tok = rem.remove(0);
                proof {
                    lemma_deep_view_remove_first(pre, rem);
                    assert(rem.deep_view() =~= ts.skip(k + 1));
                    assert(tok.deep_view() == ts[k]);
                    assert(wf_token(tok.deep_view()));
                }
                match Data::parse_pair(tok) {
                    Ok(d) => {
                        let ghost valspre = vals;
                        vals.push(d);
                        proof {
                            lemma_deep_view_push(valspre, vals, d);
                            if build_toks(rem.deep_view()) is Ok {
                                let vs = build_toks(rem.deep_view())->Ok_0;
                                assert(valspre.deep_view() + (seq![d.deep_view()] + vs) =~= vals
                                    .deep_view() + vs);
                            }
                        }
                    },
                    Err(e) => {
                        return ParserResult::BuildError(e);
                    },
                }
            }
            proof {
                assert(rem.deep_view() =~= Seq::<TokenV>::empty());
                assert(vals.deep_view() + Seq::<DataV>::empty() =~= vals.deep_view());
                assert(build_toks(ts) == Ok::<Seq<DataV>, SdnErrV>(vals.deep_view()));
                assert(vals@.len() == ts.len() >= 1);
            }
            // drop the Nil that the end-of-input marker produced
            let ghost valspre = vals;
            vals.pop();
            proof {
                lemma_deep_view_pop(valspre, vals);
            }
            ParserResult::Success(vals)
        },
    }
}

} // verus!

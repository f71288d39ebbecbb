//! Ghost model of the notation: the mathematical value tree, the
//! grammar's character classes, the tokenizer, the tree builder with its
//! keyword reduction, and the canonical serializer. The executable code
//! in `parser` and `data` is specified against these functions.

use vstd::prelude::*;

verus! {

/// Mathematical counterpart of [`crate::data::Data`]: the same tree with
/// sequences in place of vectors and strings, and unbounded integers.
pub enum DataV {
    List { args: Seq<DataV>, kwargs: Seq<(Seq<char>, DataV)> },
    Int(int),
    Float(Seq<char>),
    Str(Seq<char>),
    Symbol(Seq<char>),
    Keyword(Seq<char>),
    Nil,
}

// ---------------------------------------------------------------------------
// Character classes
// ---------------------------------------------------------------------------

/// Whitespace: the only separator between sibling expressions.
pub open spec fn is_ws_char(c: char) -> bool {
    c == ' ' || c == '\t' || c == '\n' || c == '\r'
}

pub open spec fn is_digit_char(c: char) -> bool {
    '0' <= c && c <= '9'
}

/// Characters that may stand inside an atom token (number, symbol or
/// keyword): everything but whitespace and the three delimiters.
pub open spec fn is_atom_char(c: char) -> bool {
    !is_ws_char(c) && c != '(' && c != ')' && c != '"'
}

pub open spec fn all_atom_chars(t: Seq<char>) -> bool {
    forall|i: int| 0 <= i < t.len() ==> is_atom_char(#[trigger] t[i])
}

pub open spec fn all_digit_chars(t: Seq<char>) -> bool {
    forall|i: int| 0 <= i < t.len() ==> is_digit_char(#[trigger] t[i])
}

/// Token text of an integer: an optional minus sign, then one or more digits.
pub open spec fn is_int_text(t: Seq<char>) -> bool {
    if t.len() > 0 && t[0] == '-' {
        t.len() >= 2 && all_digit_chars(t.skip(1))
    } else {
        t.len() >= 1 && all_digit_chars(t)
    }
}

/// Digits with exactly one dot strictly inside: `digit+ '.' digit+`.
pub open spec fn is_float_body(t: Seq<char>) -> bool {
    exists|k: int|
        1 <= k < t.len() - 1 && #[trigger] t[k] == '.' && all_digit_chars(t.take(k))
            && all_digit_chars(t.skip(k + 1))
}

/// Token text of a float: an optional minus sign, then `digit+ '.' digit+`.
pub open spec fn is_float_text(t: Seq<char>) -> bool {
    if t.len() > 0 && t[0] == '-' {
        is_float_body(t.skip(1))
    } else {
        is_float_body(t)
    }
}

/// Token text that is recognized as a symbol: a run of atom characters
/// that does not begin with the keyword marker and cannot be mistaken
/// for the start of a number.
pub open spec fn valid_symbol_text(t: Seq<char>) -> bool {
    &&& t.len() > 0
    &&& all_atom_chars(t)
    &&& t[0] != ':'
    &&& !is_digit_char(t[0])
    &&& !(t[0] == '-' && t.len() >= 2 && is_digit_char(t[1]))
}

/// A keyword name (the text after the leading marker): any run of atom
/// characters, possibly empty.
pub open spec fn valid_keyword_name(t: Seq<char>) -> bool {
    all_atom_chars(t)
}

// ---------------------------------------------------------------------------
// Well-formedness of parsed values
// ---------------------------------------------------------------------------

/// No key occurs twice in a keyword map.
pub open spec fn unique_keys(kwargs: Seq<(Seq<char>, DataV)>) -> bool {
    forall|i: int, j: int|
        0 <= i < j < kwargs.len() ==> (#[trigger] kwargs[i]).0 != (#[trigger] kwargs[j]).0
}

/// Well-formedness of a parsed value: exactly the shapes the parser can
/// produce. `Nil` is an internal end-of-input artifact and never appears
/// in results, so it is not well formed.
pub open spec fn wf_data(v: DataV) -> bool
    decreases v,
{
    match v {
        DataV::List { args, kwargs } => {
            &&& forall|i: int|
                0 <= i < args.len() ==> wf_data(#[trigger] args[i]) && !(args[i] is Keyword)
            &&& forall|i: int|
                0 <= i < kwargs.len() ==> valid_keyword_name((#[trigger] kwargs[i]).0) && wf_data(
                    kwargs[i].1,
                ) && !(kwargs[i].1 is Keyword)
            &&& unique_keys(kwargs)
        },
        DataV::Int(i) => i64::MIN <= i <= i64::MAX,
        DataV::Float(t) => is_float_text(t),
        DataV::Str(_) => true,
        DataV::Symbol(t) => valid_symbol_text(t),
        DataV::Keyword(t) => valid_keyword_name(t),
        DataV::Nil => false,
    }
}

pub open spec fn wf_data_seq(vs: Seq<DataV>) -> bool {
    forall|i: int| 0 <= i < vs.len() ==> wf_data(#[trigger] vs[i])
}

// ---------------------------------------------------------------------------
// Tokens
// ---------------------------------------------------------------------------

/// The token tree the grammar matcher produces. Atom tokens carry their
/// text exactly as written (a keyword keeps its leading marker, a string
/// keeps its escape sequences undecoded); `End` marks end of input.
pub enum TokenV {
    List(Seq<TokenV>),
    IntT(Seq<char>),
    FloatT(Seq<char>),
    StrT(Seq<char>),
    SymT(Seq<char>),
    KwT(Seq<char>),
    End,
}

/// What the tokenizer was looking for when it failed.
#[derive(Debug, PartialEq, Eq, Structural, Clone, Copy)]
pub enum Expected {
    /// An expression may start here; the character cannot start one.
    Expression,
    /// A `)` closing an open list.
    CloseParen,
    /// A `"` closing a string literal.
    CloseQuote,
    /// One of the four escape codes after a backslash.
    EscapeChar,
    /// Digits completing a numeric token.
    Digit,
}

pub enum TokOutV {
    Toks(Seq<TokenV>),
    Fail { pos: int, expected: Expected },
}

// ---------------------------------------------------------------------------
// String token scanning and escape coding
// ---------------------------------------------------------------------------

pub open spec fn is_escape_code(c: char) -> bool {
    c == 'n' || c == 't' || c == '"' || c == '\\'
}

pub enum StrScanV {
    /// `raw` is the undecoded inner text; `end` the index after the
    /// closing quote.
    Done { raw: Seq<char>, end: int },
    /// A backslash not followed by one of the four escape codes; `at` is
    /// the index of the offending character (the input's length when the
    /// backslash ends the input).
    BadEscape { at: int },
    Unterminated,
}

/// Scan the inside of a string literal, `i` standing just after the
/// opening quote.
pub open spec fn scan_string(s: Seq<char>, i: int) -> StrScanV
    decreases s.len() - i,
{
    if i < 0 || i >= s.len() {
        StrScanV::Unterminated
    } else if s[i] == '"' {
        StrScanV::Done { raw: Seq::empty(), end: i + 1 }
    } else if s[i] == '\\' {
        if i + 1 < s.len() {
            if is_escape_code(s[i + 1]) {
                match scan_string(s, i + 2) {
                    StrScanV::Done { raw, end } => StrScanV::Done {
                        raw: seq![s[i], s[i + 1]] + raw,
                        end,
                    },
                    other => other,
                }
            } else {
                StrScanV::BadEscape { at: i + 1 }
            }
        } else {
            StrScanV::BadEscape { at: s.len() as int }
        }
    } else {
        match scan_string(s, i + 1) {
            StrScanV::Done { raw, end } => StrScanV::Done { raw: seq![s[i]] + raw, end },
            other => other,
        }
    }
}

pub open spec fn escape_val(c: char) -> char {
    if c == 'n' {
        '\n'
    } else if c == 't' {
        '\t'
    } else if c == '"' {
        '"'
    } else {
        '\\'
    }
}

/// Decode the inner text of a string token: each backslash and its
/// escape code become the escaped character, everything else is copied.
pub open spec fn decode_str(raw: Seq<char>) -> Seq<char>
    decreases raw.len(),
{
    if raw.len() == 0 {
        Seq::empty()
    } else if raw[0] == '\\' && raw.len() >= 2 {
        seq![escape_val(raw[1])] + decode_str(raw.skip(2))
    } else {
        seq![raw[0]] + decode_str(raw.skip(1))
    }
}

pub open spec fn needs_escape(c: char) -> bool {
    c == '\n' || c == '\t' || c == '"' || c == '\\'
}

pub open spec fn escape_code_of(c: char) -> char {
    if c == '\n' {
        'n'
    } else if c == '\t' {
        't'
    } else if c == '"' {
        '"'
    } else {
        '\\'
    }
}

/// Re-encode a decoded string: the four special characters get their
/// escape sequence, everything else is copied verbatim.
pub open spec fn encode_str(t: Seq<char>) -> Seq<char>
    decreases t.len(),
{
    if t.len() == 0 {
        Seq::empty()
    } else {
        (if needs_escape(t[0]) {
            seq!['\\', escape_code_of(t[0])]
        } else {
            seq![t[0]]
        }) + encode_str(t.skip(1))
    }
}

// ---------------------------------------------------------------------------
// Atom runs and their classification
// ---------------------------------------------------------------------------

/// Length of the maximal run of atom characters starting at `i`.
pub open spec fn run_len(s: Seq<char>, i: int) -> int
    decreases s.len() - i,
{
    if 0 <= i < s.len() && is_atom_char(s[i]) {
        1 + run_len(s, i + 1)
    } else {
        0
    }
}

pub enum RunClassV {
    Kw,
    Fl,
    In,
    BadNum,
    Sym,
}

/// Ordered-choice classification of a nonempty atom run: keyword marker
/// first, then float before int, then the malformed-number cases the
/// grammar rejects, and a symbol otherwise.
pub open spec fn classify_run(t: Seq<char>) -> RunClassV {
    if t[0] == ':' {
        RunClassV::Kw
    } else if is_float_text(t) {
        RunClassV::Fl
    } else if is_int_text(t) {
        RunClassV::In
    } else if is_digit_char(t[0]) || (t[0] == '-' && t.len() >= 2 && is_digit_char(t[1])) {
        RunClassV::BadNum
    } else {
        RunClassV::Sym
    }
}

// ---------------------------------------------------------------------------
// The tokenizer, as a pushdown run over the input
// ---------------------------------------------------------------------------

/// One pass over the text from position `i`: `acc` holds the tokens of
/// the innermost open list (of the top level when `stack` is empty), and
/// `stack` the accumulated tokens of each enclosing list, outermost
/// first. On success the top level ends with an `End` marker.
pub open spec fn tok_run(s: Seq<char>, i: int, acc: Seq<TokenV>, stack: Seq<Seq<TokenV>>) -> TokOutV
    decreases s.len() - i,
    via tok_run_decreases
{
    if i < 0 {
        TokOutV::Fail { pos: 0, expected: Expected::Expression }
    } else if i >= s.len() {
        if stack.len() == 0 {
            TokOutV::Toks(acc.push(TokenV::End))
        } else {
            TokOutV::Fail { pos: s.len() as int, expected: Expected::CloseParen }
        }
    } else if is_ws_char(s[i]) {
        tok_run(s, i + 1, acc, stack)
    } else if s[i] == '(' {
        tok_run(s, i + 1, Seq::empty(), stack.push(acc))
    } else if s[i] == ')' {
        if stack.len() == 0 {
            TokOutV::Fail { pos: i, expected: Expected::Expression }
        } else {
            tok_run(s, i + 1, stack.last().push(TokenV::List(acc)), stack.drop_last())
        }
    } else if s[i] == '"' {
        match scan_string(s, i + 1) {
            StrScanV::Done { raw, end } => tok_run(s, end, acc.push(TokenV::StrT(raw)), stack),
            StrScanV::BadEscape { at } => TokOutV::Fail { pos: at, expected: Expected::EscapeChar },
            StrScanV::Unterminated => TokOutV::Fail {
                pos: s.len() as int,
                expected: Expected::CloseQuote,
            },
        }
    } else {
        let t = s.subrange(i, i + run_len(s, i));
        match classify_run(t) {
            RunClassV::Kw => tok_run(s, i + run_len(s, i), acc.push(TokenV::KwT(t)), stack),
            RunClassV::Fl => tok_run(s, i + run_len(s, i), acc.push(TokenV::FloatT(t)), stack),
            RunClassV::In => tok_run(s, i + run_len(s, i), acc.push(TokenV::IntT(t)), stack),
            RunClassV::BadNum => TokOutV::Fail { pos: i, expected: Expected::Digit },
            RunClassV::Sym => tok_run(s, i + run_len(s, i), acc.push(TokenV::SymT(t)), stack),
        }
    }
}

#[via_fn]
proof fn tok_run_decreases(s: Seq<char>, i: int, acc: Seq<TokenV>, stack: Seq<Seq<TokenV>>) {
    if 0 <= i < s.len() {
        if s[i] == '"' {
            lemma_scan_string_end(s, i + 1);
        } else if !is_ws_char(s[i]) && s[i] != '(' && s[i] != ')' {
            lemma_run_len_bounds(s, i);
        }
    }
}

/// A successful string scan ends past its starting point and within the
/// input.
pub proof fn lemma_scan_string_end(s: Seq<char>, i: int)
    ensures
        scan_string(s, i) matches StrScanV::Done { end, .. } ==> i < end <= s.len(),
    decreases s.len() - i,
{
    if 0 <= i < s.len() {
        if s[i] == '"' {
        } else if s[i] == '\\' {
            if i + 1 < s.len() && is_escape_code(s[i + 1]) {
                lemma_scan_string_end(s, i + 2);
            }
        } else {
            lemma_scan_string_end(s, i + 1);
        }
    }
}

/// The atom run at `i` is nonempty when an atom character stands at `i`,
/// and never reaches past the input.
pub proof fn lemma_run_len_bounds(s: Seq<char>, i: int)
    requires
        0 <= i <= s.len(),
    ensures
        0 <= run_len(s, i),
        i + run_len(s, i) <= s.len(),
        i < s.len() && is_atom_char(s[i]) ==> run_len(s, i) >= 1,
    decreases s.len() - i,
{
    if i < s.len() && is_atom_char(s[i]) {
        lemma_run_len_bounds(s, i + 1);
    }
}

/// The tokenizer's result on full source text.
pub open spec fn spec_tokenize(s: Seq<char>) -> TokOutV {
    tok_run(s, 0, Seq::empty(), Seq::empty())
}

// ---------------------------------------------------------------------------
// Shape of the tokens the tokenizer can produce
// ---------------------------------------------------------------------------

/// The inner text of a string token as the scanner delivers it: every
/// backslash introduces one of the four escape codes, and a quote only
/// ever stands escaped.
pub open spec fn str_raw_ok(raw: Seq<char>) -> bool
    decreases raw.len(),
{
    if raw.len() == 0 {
        true
    } else if raw[0] == '\\' {
        raw.len() >= 2 && is_escape_code(raw[1]) && str_raw_ok(raw.skip(2))
    } else {
        raw[0] != '"' && str_raw_ok(raw.skip(1))
    }
}

/// What the grammar guarantees of each token it hands to the builder.
pub open spec fn wf_token(t: TokenV) -> bool
    decreases t,
{
    match t {
        TokenV::List(children) => forall|i: int|
            0 <= i < children.len() ==> wf_token(#[trigger] children[i]),
        TokenV::IntT(txt) => is_int_text(txt),
        TokenV::FloatT(txt) => is_float_text(txt),
        TokenV::StrT(raw) => str_raw_ok(raw),
        TokenV::SymT(txt) => valid_symbol_text(txt),
        TokenV::KwT(txt) => txt.len() >= 1 && txt[0] == ':' && all_atom_chars(txt),
        TokenV::End => true,
    }
}

pub open spec fn wf_tokens(ts: Seq<TokenV>) -> bool {
    forall|i: int| 0 <= i < ts.len() ==> wf_token(#[trigger] ts[i])
}

/// A successful scan delivers well-shaped inner text.
pub proof fn lemma_scan_string_raw_ok(s: Seq<char>, i: int)
    ensures
        scan_string(s, i) matches StrScanV::Done { raw, .. } ==> str_raw_ok(raw),
    decreases s.len() - i,
{
    if 0 <= i < s.len() {
        if s[i] == '"' {
        } else if s[i] == '\\' {
            if i + 1 < s.len() && is_escape_code(s[i + 1]) {
                lemma_scan_string_raw_ok(s, i + 2);
                if scan_string(s, i + 2) is Done {
                    let raw2 = scan_string(s, i + 2)->Done_raw;
                    let raw = seq![s[i], s[i + 1]] + raw2;
                    assert(raw.skip(2) =~= raw2);
                }
            }
        } else {
            lemma_scan_string_raw_ok(s, i + 1);
            if scan_string(s, i + 1) is Done {
                let raw2 = scan_string(s, i + 1)->Done_raw;
                let raw = seq![s[i]] + raw2;
                assert(raw.skip(1) =~= raw2);
            }
        }
    }
}

/// Every character of the atom run is an atom character.
pub proof fn lemma_run_chars(s: Seq<char>, i: int)
    requires
        0 <= i <= s.len(),
    ensures
        all_atom_chars(s.subrange(i, i + run_len(s, i))),
    decreases s.len() - i,
{
    lemma_run_len_bounds(s, i);
    if i < s.len() && is_atom_char(s[i]) {
        lemma_run_chars(s, i + 1);
        lemma_run_len_bounds(s, i + 1);
        let t = s.subrange(i, i + run_len(s, i));
        let t2 = s.subrange(i + 1, i + 1 + run_len(s, i + 1));
        assert(t.skip(1) =~= t2);
        assert forall|k: int| 0 <= k < t.len() implies is_atom_char(#[trigger] t[k]) by {
            if k > 0 {
                assert(t[k] == t2[k - 1]);
            }
        }
    }
}

/// A successful tokenizer run only ever delivers well-shaped tokens,
/// and ends the top level with the end-of-input marker.
pub proof fn lemma_tok_run_wf(s: Seq<char>, i: int, acc: Seq<TokenV>, stack: Seq<Seq<TokenV>>)
    requires
        wf_tokens(acc),
        forall|k: int| 0 <= k < stack.len() ==> wf_tokens(#[trigger] stack[k]),
    ensures
        tok_run(s, i, acc, stack) matches TokOutV::Toks(ts) ==> wf_tokens(ts) && ts.len() >= 1
            && ts.last() == TokenV::End,
    decreases s.len() - i,
{
    if i < 0 {
    } else if i >= s.len() {
        if stack.len() == 0 {
            assert(wf_tokens(acc.push(TokenV::End)));
        }
    } else if is_ws_char(s[i]) {
        lemma_tok_run_wf(s, i + 1, acc, stack);
    } else if s[i] == '(' {
        lemma_tok_run_wf(s, i + 1, Seq::empty(), stack.push(acc));
    } else if s[i] == ')' {
        if stack.len() > 0 {
            let acc2 = stack.last().push(TokenV::List(acc));
            assert(wf_token(TokenV::List(acc)));
            assert(wf_tokens(acc2));
            lemma_tok_run_wf(s, i + 1, acc2, stack.drop_last());
        }
    } else if s[i] == '"' {
        match scan_string(s, i + 1) {
            StrScanV::Done { raw, end } => {
                lemma_scan_string_end(s, i + 1);
                lemma_scan_string_raw_ok(s, i + 1);
                assert(wf_tokens(acc.push(TokenV::StrT(raw))));
                lemma_tok_run_wf(s, end, acc.push(TokenV::StrT(raw)), stack);
            },
            _ => {},
        }
    } else {
        let t = s.subrange(i, i + run_len(s, i));
        lemma_run_chars(s, i);
        lemma_run_len_bounds(s, i);
        assert(t.len() >= 1);
        match classify_run(t) {
            RunClassV::Kw => {
                assert(wf_tokens(acc.push(TokenV::KwT(t))));
                lemma_tok_run_wf(s, i + run_len(s, i), acc.push(TokenV::KwT(t)), stack);
            },
            RunClassV::Fl => {
                assert(wf_tokens(acc.push(TokenV::FloatT(t))));
                lemma_tok_run_wf(s, i + run_len(s, i), acc.push(TokenV::FloatT(t)), stack);
            },
            RunClassV::In => {
                assert(wf_tokens(acc.push(TokenV::IntT(t))));
                lemma_tok_run_wf(s, i + run_len(s, i), acc.push(TokenV::IntT(t)), stack);
            },
            RunClassV::BadNum => {},
            RunClassV::Sym => {
                assert(valid_symbol_text(t));
                assert(wf_tokens(acc.push(TokenV::SymT(t))));
                lemma_tok_run_wf(s, i + run_len(s, i), acc.push(TokenV::SymT(t)), stack);
            },
        }
    }
}

// ---------------------------------------------------------------------------
// Numeric text
// ---------------------------------------------------------------------------

pub open spec fn digit_val(c: char) -> int {
    c as int - '0' as int
}

/// Value of a digit string, most significant digit first.
pub open spec fn digits_val(t: Seq<char>) -> int
    decreases t.len(),
{
    if t.len() == 0 {
        0
    } else {
        digits_val(t.drop_last()) * 10 + digit_val(t.last())
    }
}

pub proof fn lemma_digits_val_nonneg(t: Seq<char>)
    requires
        all_digit_chars(t),
    ensures
        digits_val(t) >= 0,
    decreases t.len(),
{
    if t.len() > 0 {
        assert(all_digit_chars(t.drop_last())) by {
            assert(forall|i: int|
                0 <= i < t.len() - 1 ==> #[trigger] t.drop_last()[i] == t[i]);
        }
        lemma_digits_val_nonneg(t.drop_last());
        assert(digit_val(t.last()) >= 0);
    }
}

/// Reading one more digit multiplies the value by ten and adds it.
pub proof fn lemma_digits_val_extend(t: Seq<char>, j: int)
    requires
        0 <= j < t.len(),
    ensures
        digits_val(t.take(j + 1)) == digits_val(t.take(j)) * 10 + digit_val(t[j]),
{
    assert(t.take(j + 1).drop_last() =~= t.take(j));
    assert(t.take(j + 1).last() == t[j]);
}

/// Once a digit prefix exceeds a bound, the whole string does too.
pub proof fn lemma_digits_val_grows(t: Seq<char>, j: int, b: int)
    requires
        all_digit_chars(t),
        0 <= j <= t.len(),
        b >= 0,
        digits_val(t.take(j)) > b,
    ensures
        digits_val(t) > b,
    decreases t.len() - j,
{
    if j == t.len() {
        assert(t.take(j) =~= t);
    } else {
        lemma_digits_val_extend(t, j);
        assert(digits_val(t.take(j)) * 10 >= digits_val(t.take(j))) by {
            lemma_digits_val_nonneg_take(t, j);
        }
        lemma_digits_val_grows(t, j + 1, b);
    }
}

pub proof fn lemma_digits_val_nonneg_take(t: Seq<char>, j: int)
    requires
        all_digit_chars(t),
        0 <= j <= t.len(),
    ensures
        digits_val(t.take(j)) >= 0,
{
    assert(all_digit_chars(t.take(j))) by {
        assert(forall|i: int| 0 <= i < j ==> #[trigger] t.take(j)[i] == t[i]);
    }
    lemma_digits_val_nonneg(t.take(j));
}

/// Value of an integer token's text.
pub open spec fn int_val(t: Seq<char>) -> int {
    if t.len() > 0 && t[0] == '-' {
        -digits_val(t.skip(1))
    } else {
        digits_val(t)
    }
}

// ---------------------------------------------------------------------------
// Tree building and the keyword reduction
// ---------------------------------------------------------------------------

/// How one parse fails after the text has matched the grammar.
pub enum SdnErrV {
    /// A keyword had no following value, or was followed by another
    /// keyword; carries the keyword's name.
    Dangling(Seq<char>),
    /// The same keyword named twice in one list; carries the name.
    Duplicate(Seq<char>),
    /// An integer token whose value does not fit 64 signed bits; carries
    /// the token text. The grammar admits digit strings of any length,
    /// so this defect-class failure is reported rather than masked.
    IntRange(Seq<char>),
}

pub open spec fn has_key(kwargs: Seq<(Seq<char>, DataV)>, k: Seq<char>) -> bool {
    exists|i: int| 0 <= i < kwargs.len() && (#[trigger] kwargs[i]).0 == k
}

/// The keyword reduction, scanning a list's children left to right.
/// `pending` holds a keyword name waiting for its value.
pub open spec fn reduce_step(
    vs: Seq<DataV>,
    args: Seq<DataV>,
    kwargs: Seq<(Seq<char>, DataV)>,
    pending: Option<Seq<char>>,
) -> Result<(Seq<DataV>, Seq<(Seq<char>, DataV)>), SdnErrV>
    decreases vs.len(),
{
    if vs.len() == 0 {
        match pending {
            Some(k) => Err(SdnErrV::Dangling(k)),
            None => Ok((args, kwargs)),
        }
    } else {
        match vs[0] {
            DataV::Keyword(name) => match pending {
                Some(k) => Err(SdnErrV::Dangling(k)),
                None => reduce_step(vs.drop_first(), args, kwargs, Some(name)),
            },
            _ => match pending {
                Some(k) => if has_key(kwargs, k) {
                    Err(SdnErrV::Duplicate(k))
                } else {
                    reduce_step(vs.drop_first(), args, kwargs.push((k, vs[0])), None)
                },
                None => reduce_step(vs.drop_first(), args.push(vs[0]), kwargs, None),
            },
        }
    }
}

/// Split a list's children into positional arguments and a keyword map.
pub open spec fn reduce_list(vs: Seq<DataV>) -> Result<
    (Seq<DataV>, Seq<(Seq<char>, DataV)>),
    SdnErrV,
> {
    reduce_step(vs, Seq::empty(), Seq::empty(), None)
}

/// Convert one token into a value: numeric text to its value, a string's
/// inner text through the escape decoder, a keyword stripped of its
/// marker, a list through the keyword reduction, the end marker to `Nil`.
pub open spec fn build_tok(t: TokenV) -> Result<DataV, SdnErrV>
    decreases t,
{
    match t {
        TokenV::List(children) => match build_toks(children) {
            Ok(vs) => match reduce_list(vs) {
                Ok((args, kwargs)) => Ok(DataV::List { args, kwargs }),
                Err(e) => Err(e),
            },
            Err(e) => Err(e),
        },
        TokenV::IntT(txt) => if i64::MIN <= int_val(txt) <= i64::MAX {
            Ok(DataV::Int(int_val(txt)))
        } else {
            Err(SdnErrV::IntRange(txt))
        },
        TokenV::FloatT(txt) => Ok(DataV::Float(txt)),
        TokenV::StrT(raw) => Ok(DataV::Str(decode_str(raw))),
        TokenV::SymT(txt) => Ok(DataV::Symbol(txt)),
        TokenV::KwT(txt) => Ok(DataV::Keyword(txt.drop_first())),
        TokenV::End => Ok(DataV::Nil),
    }
}

pub open spec fn build_toks(ts: Seq<TokenV>) -> Result<Seq<DataV>, SdnErrV>
    decreases ts,
{
    if ts.len() == 0 {
        Ok(Seq::empty())
    } else {
        match build_tok(ts[0]) {
            Ok(v) => match build_toks(ts.drop_first()) {
                Ok(vs) => Ok(seq![v] + vs),
                Err(e) => Err(e),
            },
            Err(e) => Err(e),
        }
    }
}

// ---------------------------------------------------------------------------
// The whole parse
// ---------------------------------------------------------------------------

pub enum ParseOutV {
    Vals(Seq<DataV>),
    GrammarFail { pos: int, expected: Expected },
    BuildFail(SdnErrV),
}

/// Parse source text: tokenize, build each top-level token, and drop the
/// trailing `Nil` that the end-of-input marker produced.
pub open spec fn spec_parse(s: Seq<char>) -> ParseOutV {
    match spec_tokenize(s) {
        TokOutV::Fail { pos, expected } => ParseOutV::GrammarFail { pos, expected },
        TokOutV::Toks(ts) => match build_toks(ts) {
            Ok(vs) => ParseOutV::Vals(vs.drop_last()),
            Err(e) => ParseOutV::BuildFail(e),
        },
    }
}

// ---------------------------------------------------------------------------
// Canonical serialization
// ---------------------------------------------------------------------------

pub open spec fn digit_char(d: int) -> char {
    if d == 0 {
        '0'
    } else if d == 1 {
        '1'
    } else if d == 2 {
        '2'
    } else if d == 3 {
        '3'
    } else if d == 4 {
        '4'
    } else if d == 5 {
        '5'
    } else if d == 6 {
        '6'
    } else if d == 7 {
        '7'
    } else if d == 8 {
        '8'
    } else {
        '9'
    }
}

/// Decimal digits of a nonnegative number, most significant first.
pub open spec fn dec_digits(n: int) -> Seq<char>
    decreases n,
{
    if n < 10 {
        seq![digit_char(n)]
    } else {
        dec_digits(n / 10).push(digit_char(n % 10))
    }
}

/// Decimal text of an integer, with a minus sign when negative.
pub open spec fn int_text_of(i: int) -> Seq<char> {
    if i < 0 {
        seq!['-'] + dec_digits(-i)
    } else {
        dec_digits(i)
    }
}

/// Canonical text of one value.
pub open spec fn ser_data(v: DataV) -> Seq<char>
    decreases v, 0int,
{
    match v {
        DataV::List { args, kwargs } => {
            let inner = if args.len() > 0 && kwargs.len() > 0 {
                ser_args(args) + seq![' '] + ser_kwargs(kwargs)
            } else if args.len() > 0 {
                ser_args(args)
            } else {
                ser_kwargs(kwargs)
            };
            seq!['('] + inner + seq![')']
        },
        DataV::Int(i) => int_text_of(i),
        DataV::Float(t) => t,
        DataV::Str(t) => seq!['"'] + encode_str(t) + seq!['"'],
        DataV::Symbol(t) => t,
        DataV::Keyword(t) => seq![':'] + t,
        DataV::Nil => seq!['n', 'i', 'l'],
    }
}

/// Positional arguments, space separated, no stray separator.
pub open spec fn ser_args(args: Seq<DataV>) -> Seq<char>
    decreases args, 0int,
{
    if args.len() == 0 {
        Seq::empty()
    } else if args.len() == 1 {
        ser_data(args[0])
    } else {
        ser_args(args.drop_last()) + seq![' '] + ser_data(args.last())
    }
}

/// Keyword arguments, each as marker + name, a space, and the value.
pub open spec fn ser_kwargs(kwargs: Seq<(Seq<char>, DataV)>) -> Seq<char>
    decreases kwargs, 0int,
{
    if kwargs.len() == 0 {
        Seq::empty()
    } else if kwargs.len() == 1 {
        ser_kw_item(kwargs[0].0, kwargs[0].1)
    } else {
        ser_kwargs(kwargs.drop_last()) + seq![' '] + ser_kw_item(
            kwargs.last().0,
            kwargs.last().1,
        )
    }
}

pub open spec fn ser_kw_item(k: Seq<char>, v: DataV) -> Seq<char>
    decreases v, 1int,
{
    seq![':'] + k + seq![' '] + ser_data(v)
}

/// A sequence of top-level values, one per line.
pub open spec fn render_lines(vs: Seq<DataV>) -> Seq<char>
    decreases vs,
{
    if vs.len() == 0 {
        Seq::empty()
    } else if vs.len() == 1 {
        ser_data(vs[0])
    } else {
        render_lines(vs.drop_last()) + seq!['\n'] + ser_data(vs.last())
    }
}

} // verus!

//! The laws of the library, chief among them: re-parsing canonically
//! serialized output reproduces the value tree exactly.

use vstd::prelude::*;
use crate::model::{
    DataV, TokenV, TokOutV, StrScanV, RunClassV, is_ws_char, is_digit_char, is_atom_char,
    is_escape_code, escape_val, escape_code_of, needs_escape, decode_str, encode_str,
    scan_string, run_len, classify_run, tok_run, spec_tokenize, is_int_text, is_float_text,
    is_float_body, all_digit_chars, all_atom_chars, valid_symbol_text, valid_keyword_name,
    digit_val, digits_val, int_val, digit_char, dec_digits, int_text_of, build_tok,
    build_toks, reduce_step, reduce_list, has_key, spec_parse, ParseOutV, SdnErrV, wf_data,
    wf_data_seq, unique_keys, wf_token, wf_tokens, ser_data, ser_args, ser_kwargs,
    ser_kw_item, render_lines, lemma_run_len_bounds,
};

verus! {

// ---------------------------------------------------------------------------
// Decimal text round trip
// ---------------------------------------------------------------------------

proof fn lemma_dec_digits_shape(n: int)
    requires
        n >= 0,
    ensures
        all_digit_chars(dec_digits(n)),
        dec_digits(n).len() >= 1,
        digits_val(dec_digits(n)) == n,
        dec_digits(n)[0] != '-',
        dec_digits(n)[0] != ':',
        dec_digits(n)[0] != '.',
        is_digit_char(dec_digits(n)[0]),
    decreases n,
{
    if n < 10 {
        let t = dec_digits(n);
        assert(t =~= seq![digit_char(n)]);
        assert(t.drop_last() =~= Seq::<char>::empty());
        assert(t.last() == digit_char(n));
        assert(digits_val(Seq::<char>::empty()) == 0);
        assert(digit_val(digit_char(n)) == n);
    } else {
        lemma_dec_digits_shape(n / 10);
        let t = dec_digits(n);
        let h = dec_digits(n / 10);
        assert(t == h.push(digit_char(n % 10)));
        assert(t.drop_last() =~= h);
        assert(t.last() == digit_char(n % 10));
        assert(digit_val(digit_char(n % 10)) == n % 10);
        assert(digits_val(t) == digits_val(h) * 10 + n % 10);
        assert((n / 10) * 10 + n % 10 == n) by {
            vstd::arithmetic::div_mod::lemma_fundamental_div_mod(n, 10);
        }
        assert(all_digit_chars(t)) by {
            assert(forall|i: int| 0 <= i < h.len() ==> t[i] == #[trigger] h[i]);
        }
        assert(t[0] == h[0]);
    }
}

/// The decimal text of an integer reads back as the same integer, and
/// has the lexical shape of an integer token.
pub proof fn lemma_int_text_round_trip(i: int)
    ensures
        is_int_text(int_text_of(i)),
        int_val(int_text_of(i)) == i,
        all_atom_chars(int_text_of(i)),
        int_text_of(i).len() >= 1,
    decreases (if i < 0 { 1int } else { 0int }),
{
    if i < 0 {
        lemma_dec_digits_shape(-i);
        let t = int_text_of(i);
        let d = dec_digits(-i);
        assert(t == seq!['-'] + d);
        assert(t[0] == '-');
        assert(t.skip(1) =~= d);
        assert(is_int_text(t));
        assert(int_val(t) == -digits_val(d) == i);
        assert(all_atom_chars(t)) by {
            assert(forall|k: int| 1 <= k < t.len() ==> #[trigger] t[k] == d[k - 1]);
            assert(forall|k: int|
                0 <= k < t.len() ==> (k == 0 || is_digit_char(#[trigger] t[k])));
        }
    } else {
        lemma_dec_digits_shape(i);
        let t = int_text_of(i);
        assert(t == dec_digits(i));
        assert(t[0] != '-');
        assert(all_atom_chars(t));
    }
}

/// A string of digits (with optional sign) holds no dot, so an integer
/// token never classifies as a float.
proof fn lemma_int_text_not_float(t: Seq<char>)
    requires
        is_int_text(t),
    ensures
        !is_float_text(t),
        classify_run(t) == RunClassV::In,
{
    if t[0] == '-' {
        let body = t.skip(1);
        assert forall|k: int| 1 <= k < body.len() - 1 implies body[k] != '.' by {
            assert(is_digit_char(body[k]));
        }
        assert(!is_float_body(body));
        assert(t[0] != ':');
    } else {
        assert forall|k: int| 1 <= k < t.len() - 1 implies t[k] != '.' by {
            assert(is_digit_char(t[k]));
        }
        assert(!is_float_body(t));
        assert(t[0] != ':') by {
            assert(is_digit_char(t[0]));
        }
    }
}

/// A float token's characters are all atom characters, and it
/// classifies as a float.
proof fn lemma_float_text_shape(t: Seq<char>)
    requires
        is_float_text(t),
    ensures
        all_atom_chars(t),
        t.len() >= 3,
        classify_run(t) == RunClassV::Fl,
{
    let body = if t[0] == '-' {
        t.skip(1)
    } else {
        t
    };
    let off: int = if t[0] == '-' {
        1
    } else {
        0
    };
    let k = choose|k: int|
        1 <= k < body.len() - 1 && #[trigger] body[k] == '.' && all_digit_chars(body.take(k))
            && all_digit_chars(body.skip(k + 1));
    assert forall|j: int| 0 <= j < t.len() implies is_atom_char(#[trigger] t[j]) by {
        if j == 0 && t[0] == '-' {
        } else {
            let b = j - off;
            if b < k {
                assert(body.take(k)[b] == body[b]);
                assert(is_digit_char(body[b]));
            } else if b == k {
                assert(body[b] == '.');
            } else {
                assert(body.skip(k + 1)[b - k - 1] == body[b]);
                assert(is_digit_char(body[b]));
            }
            assert(t[j] == body[b]);
        }
    }
    assert(body.len() >= 3);
    assert(t[0] != ':') by {
        if t[0] != '-' {
            assert(body.take(k)[0] == body[0]);
            assert(is_digit_char(t[0]));
        }
    }
}

/// A well-formed symbol classifies as a symbol.
proof fn lemma_symbol_classifies(t: Seq<char>)
    requires
        valid_symbol_text(t),
    ensures
        classify_run(t) == RunClassV::Sym,
{
    if is_int_text(t) {
        if t[0] == '-' {
            assert(t.skip(1)[0] == t[1]);
            assert(is_digit_char(t[1]));
        } else {
            assert(is_digit_char(t[0]));
        }
        assert(false);
    }
    if is_float_text(t) {
        if t[0] == '-' {
            let body = t.skip(1);
            let k = choose|k: int|
                1 <= k < body.len() - 1 && #[trigger] body[k] == '.' && all_digit_chars(
                    body.take(k),
                ) && all_digit_chars(body.skip(k + 1));
            assert(body.take(k)[0] == body[0]);
            assert(is_digit_char(t[1]));
            assert(false);
        } else {
            let k = choose|k: int|
                1 <= k < t.len() - 1 && #[trigger] t[k] == '.' && all_digit_chars(t.take(k))
                    && all_digit_chars(t.skip(k + 1));
            assert(t.take(k)[0] == t[0]);
            assert(false);
        }
    }
}

// ---------------------------------------------------------------------------
// Exact atom runs
// ---------------------------------------------------------------------------

/// When atom characters fill `s` from `i` up to a boundary, the run is
/// exactly that stretch.
proof fn lemma_run_len_exact(s: Seq<char>, i: int, l: int)
    requires
        0 <= i,
        0 <= l,
        i + l <= s.len(),
        forall|k: int| 0 <= k < l ==> is_atom_char(#[trigger] s[i + k]),
        i + l == s.len() || !is_atom_char(s[i + l]),
    ensures
        run_len(s, i) == l,
    decreases l,
{
    if l == 0 {
    } else {
        assert(is_atom_char(s[i + 0]));
        assert forall|k: int| 0 <= k < l - 1 implies is_atom_char(#[trigger] s[i + 1 + k]) by {
            assert(s[i + 1 + k] == s[i + (k + 1)]);
        }
        lemma_run_len_exact(s, i + 1, l - 1);
    }
}

// ---------------------------------------------------------------------------
// Scanning and decoding encoded strings
// ---------------------------------------------------------------------------

/// Scanning an encoded string finds exactly the encoded text, ending at
/// the quote that follows it.
proof fn lemma_scan_encoded(s: Seq<char>, i: int, c: Seq<char>)
    requires
        0 <= i,
        i + encode_str(c).len() < s.len(),
        s.subrange(i, i + encode_str(c).len()) == encode_str(c),
        s[i + encode_str(c).len()] == '"',
    ensures
        scan_string(s, i) == (StrScanV::Done {
            raw: encode_str(c),
            end: i + encode_str(c).len() + 1,
        }),
    decreases c.len(),
{
    let e = encode_str(c);
    if c.len() == 0 {
        assert(e.len() == 0);
        assert(s[i] == '"');
        assert(scan_string(s, i) == (StrScanV::Done { raw: Seq::<char>::empty(), end: i + 1 }));
        assert(e =~= Seq::<char>::empty());
    } else {
        let rest = c.skip(1);
        let er = encode_str(rest);
        if needs_escape(c[0]) {
            assert(e == seq!['\\', escape_code_of(c[0])] + er);
            assert(s[i] == e[0] == '\\');
            assert(s[i + 1] == e[1] == escape_code_of(c[0]));
            assert(is_escape_code(escape_code_of(c[0])));
            assert(s.subrange(i + 2, i + 2 + er.len()) =~= er) by {
                assert(forall|k: int|
                    0 <= k < er.len() ==> s.subrange(i + 2, i + 2 + er.len())[k] == s[i + 2 + k]
                        && #[trigger] er[k] == e[k + 2]);
            }
            lemma_scan_encoded(s, i + 2, rest);
            assert(seq![s[i], s[i + 1]] + er =~= e);
        } else {
            assert(e == seq![c[0]] + er);
            assert(s[i] == e[0] == c[0]);
            assert(c[0] != '"' && c[0] != '\\');
            assert(s.subrange(i + 1, i + 1 + er.len()) =~= er) by {
                assert(forall|k: int|
                    0 <= k < er.len() ==> s.subrange(i + 1, i + 1 + er.len())[k] == s[i + 1 + k]
                        && #[trigger] er[k] == e[k + 1]);
            }
            lemma_scan_encoded(s, i + 1, rest);
            assert(seq![s[i]] + er =~= e);
        }
    }
}

/// Decoding inverts encoding: the four escapes decode to the characters
/// they stand for, everything else is copied.
pub proof fn lemma_decode_encode(c: Seq<char>)
    ensures
        decode_str(encode_str(c)) == c,
    decreases c.len(),
{
    let e = encode_str(c);
    if c.len() == 0 {
        assert(e.len() == 0);
        assert(decode_str(e) =~= c);
    } else {
        let rest = c.skip(1);
        let er = encode_str(rest);
        lemma_decode_encode(rest);
        if needs_escape(c[0]) {
            assert(e == seq!['\\', escape_code_of(c[0])] + er);
            assert(e[0] == '\\');
            assert(e.len() >= 2);
            assert(e[1] == escape_code_of(c[0]));
            assert(e.skip(2) =~= er);
            assert(escape_val(escape_code_of(c[0])) == c[0]);
            assert(decode_str(e) == seq![c[0]] + rest);
            assert(seq![c[0]] + rest =~= c);
        } else {
            assert(e == seq![c[0]] + er);
            assert(e[0] == c[0]);
            assert(e[0] != '\\');
            assert(e.skip(1) =~= er);
            assert(decode_str(e) == seq![c[0]] + rest);
            assert(seq![c[0]] + rest =~= c);
        }
    }
}


// ---------------------------------------------------------------------------
// The tokens a serialized value produces
// ---------------------------------------------------------------------------

/// The token that the canonical text of `v` tokenizes to.
pub open spec fn tok_of(v: DataV) -> TokenV
    decreases v,
{
    match v {
        DataV::List { args, kwargs } => TokenV::List(
            toks_of_args(args) + toks_of_kwargs(kwargs),
        ),
        DataV::Int(i) => TokenV::IntT(int_text_of(i)),
        DataV::Float(t) => TokenV::FloatT(t),
        DataV::Str(c) => TokenV::StrT(encode_str(c)),
        DataV::Symbol(t) => TokenV::SymT(t),
        DataV::Keyword(n) => TokenV::KwT(seq![':'] + n),
        DataV::Nil => TokenV::End,
    }
}

pub open spec fn toks_of_args(args: Seq<DataV>) -> Seq<TokenV>
    decreases args,
{
    if args.len() == 0 {
        Seq::empty()
    } else {
        seq![tok_of(args[0])] + toks_of_args(args.drop_first())
    }
}

pub open spec fn toks_of_kwargs(kwargs: Seq<(Seq<char>, DataV)>) -> Seq<TokenV>
    decreases kwargs,
{
    if kwargs.len() == 0 {
        Seq::empty()
    } else {
        seq![TokenV::KwT(seq![':'] + kwargs[0].0), tok_of(kwargs[0].1)] + toks_of_kwargs(
            kwargs.drop_first(),
        )
    }
}

/// A keyword map as it appears among a list's children: each name as a
/// keyword value, directly before its value.
pub open spec fn kw_flatten(kwargs: Seq<(Seq<char>, DataV)>) -> Seq<DataV>
    decreases kwargs,
{
    if kwargs.len() == 0 {
        Seq::empty()
    } else {
        seq![DataV::Keyword(kwargs[0].0), kwargs[0].1] + kw_flatten(kwargs.drop_first())
    }
}

// ---------------------------------------------------------------------------
// The keyword reduction inverts flattening
// ---------------------------------------------------------------------------

proof fn lemma_reduce_kw_phase(
    rest: Seq<(Seq<char>, DataV)>,
    args: Seq<DataV>,
    kwacc: Seq<(Seq<char>, DataV)>,
)
    requires
        forall|i: int| 0 <= i < rest.len() ==> !((#[trigger] rest[i]).1 is Keyword),
        unique_keys(kwacc + rest),
    ensures
        reduce_step(kw_flatten(rest), args, kwacc, None) == Ok::<
            (Seq<DataV>, Seq<(Seq<char>, DataV)>),
            SdnErrV,
        >((args, kwacc + rest)),
    decreases rest.len(),
{
    if rest.len() == 0 {
        assert(kw_flatten(rest).len() == 0);
        assert(kwacc + rest =~= kwacc);
    } else {
        let k0 = rest[0].0;
        let v0 = rest[0].1;
        let vs = kw_flatten(rest);
        assert(vs == seq![DataV::Keyword(k0), v0] + kw_flatten(rest.drop_first()));
        assert(vs[0] == DataV::Keyword(k0));
        let vs1 = vs.drop_first();
        assert(vs1 =~= seq![v0] + kw_flatten(rest.drop_first()));
        assert(vs1[0] == v0);
        assert(!(v0 is Keyword));
        assert(!has_key(kwacc, k0)) by {
            if has_key(kwacc, k0) {
                let i = choose|i: int| 0 <= i < kwacc.len() && (#[trigger] kwacc[i]).0 == k0;
                assert((kwacc + rest)[i].0 == k0);
                assert((kwacc + rest)[kwacc.len() as int].0 == k0);
                assert(false);
            }
        }
        let kwacc2 = kwacc.push((k0, v0));
        assert(vs1.drop_first() =~= kw_flatten(rest.drop_first()));
        assert(kwacc2 + rest.drop_first() =~= kwacc + rest);
        assert forall|i: int| 0 <= i < rest.drop_first().len() implies !((#[trigger] rest
            .drop_first()[i]).1 is Keyword) by {
            assert(rest.drop_first()[i] == rest[i + 1]);
        }
        lemma_reduce_kw_phase(rest.drop_first(), args, kwacc2);
        assert(reduce_step(vs, args, kwacc, None) == reduce_step(
            vs1,
            args,
            kwacc,
            Some(k0),
        ));
        assert(reduce_step(vs1, args, kwacc, Some(k0)) == reduce_step(
            kw_flatten(rest.drop_first()),
            args,
            kwacc2,
            None,
        ));
    }
}

proof fn lemma_reduce_args_phase(
    rest: Seq<DataV>,
    acc: Seq<DataV>,
    kwargs: Seq<(Seq<char>, DataV)>,
)
    requires
        forall|i: int| 0 <= i < rest.len() ==> !((#[trigger] rest[i]) is Keyword),
        forall|i: int| 0 <= i < kwargs.len() ==> !((#[trigger] kwargs[i]).1 is Keyword),
        unique_keys(kwargs),
    ensures
        reduce_step(rest + kw_flatten(kwargs), acc, Seq::empty(), None) == Ok::<
            (Seq<DataV>, Seq<(Seq<char>, DataV)>),
            SdnErrV,
        >((acc + rest, kwargs)),
    decreases rest.len(),
{
    if rest.len() == 0 {
        assert(rest + kw_flatten(kwargs) =~= kw_flatten(kwargs));
        assert(Seq::<(Seq<char>, DataV)>::empty() + kwargs =~= kwargs);
        assert(unique_keys(Seq::<(Seq<char>, DataV)>::empty() + kwargs));
        lemma_reduce_kw_phase(kwargs, acc, Seq::empty());
        assert(acc + rest =~= acc);
    } else {
        let vs = rest + kw_flatten(kwargs);
        assert(vs[0] == rest[0]);
        assert(!(vs[0] is Keyword));
        assert(vs.drop_first() =~= rest.drop_first() + kw_flatten(kwargs));
        assert forall|i: int| 0 <= i < rest.drop_first().len() implies !((#[trigger] rest
            .drop_first()[i]) is Keyword) by {
            assert(rest.drop_first()[i] == rest[i + 1]);
        }
        lemma_reduce_args_phase(rest.drop_first(), acc.push(rest[0]), kwargs);
        assert(acc.push(rest[0]) + rest.drop_first() =~= acc + rest);
    }
}

/// The keyword reduction undoes flattening: positional values followed
/// by keyword pairs with pairwise distinct names reduce to exactly
/// those positional values and that map.
pub proof fn lemma_reduce_round_trip(args: Seq<DataV>, kwargs: Seq<(Seq<char>, DataV)>)
    requires
        forall|i: int| 0 <= i < args.len() ==> !((#[trigger] args[i]) is Keyword),
        forall|i: int| 0 <= i < kwargs.len() ==> !((#[trigger] kwargs[i]).1 is Keyword),
        unique_keys(kwargs),
    ensures
        reduce_list(args + kw_flatten(kwargs)) == Ok::<
            (Seq<DataV>, Seq<(Seq<char>, DataV)>),
            SdnErrV,
        >((args, kwargs)),
{
    lemma_reduce_args_phase(args, Seq::empty(), kwargs);
    assert(Seq::<DataV>::empty() + args =~= args);
}

// ---------------------------------------------------------------------------
// Building inverts token images
// ---------------------------------------------------------------------------

proof fn lemma_build_toks_concat(ts1: Seq<TokenV>, ts2: Seq<TokenV>)
    ensures
        build_toks(ts1 + ts2) == (match build_toks(ts1) {
            Ok(v1) => match build_toks(ts2) {
                Ok(v2) => Ok::<Seq<DataV>, SdnErrV>(v1 + v2),
                Err(e) => Err(e),
            },
            Err(e) => Err(e),
        }),
    decreases ts1.len(),
{
    if ts1.len() == 0 {
        assert(ts1 + ts2 =~= ts2);
        if build_toks(ts2) is Ok {
            assert(Seq::<DataV>::empty() + build_toks(ts2)->Ok_0 =~= build_toks(ts2)->Ok_0);
        }
    } else {
        let cat = ts1 + ts2;
        assert(cat.len() > 0);
        assert(cat[0] == ts1[0]);
        assert(cat.drop_first() =~= ts1.drop_first() + ts2);
        lemma_build_toks_concat(ts1.drop_first(), ts2);
        match build_tok(ts1[0]) {
            Ok(v) => {
                match build_toks(ts1.drop_first()) {
                    Ok(v1) => {
                        match build_toks(ts2) {
                            Ok(v2) => {
                                assert(seq![v] + (v1 + v2) =~= (seq![v] + v1) + v2);
                            },
                            Err(_) => {},
                        }
                    },
                    Err(_) => {},
                }
            },
            Err(_) => {},
        }
    }
}

proof fn lemma_build_tok_of(v: DataV)
    requires
        wf_data(v),
    ensures
        build_tok(tok_of(v)) == Ok::<DataV, SdnErrV>(v),
    decreases v, 1int,
{
    match v {
        DataV::List { args, kwargs } => {
            lemma_build_toks_of_args(args);
            lemma_build_toks_of_kwargs(kwargs);
            lemma_build_toks_concat(toks_of_args(args), toks_of_kwargs(kwargs));
            lemma_reduce_round_trip(args, kwargs);
        },
        DataV::Int(i) => {
            lemma_int_text_round_trip(i);
        },
        DataV::Str(c) => {
            lemma_decode_encode(c);
        },
        DataV::Keyword(n) => {
            assert((seq![':'] + n).drop_first() =~= n);
        },
        _ => {},
    }
}

proof fn lemma_build_toks_of_args(args: Seq<DataV>)
    requires
        forall|i: int| 0 <= i < args.len() ==> wf_data(#[trigger] args[i]),
    ensures
        build_toks(toks_of_args(args)) == Ok::<Seq<DataV>, SdnErrV>(args),
    decreases args, 2int,
{
    if args.len() == 0 {
        assert(toks_of_args(args).len() == 0);
        assert(Seq::<DataV>::empty() =~= args);
    } else {
        let ts = toks_of_args(args);
        assert(ts[0] == tok_of(args[0]));
        assert(ts.drop_first() =~= toks_of_args(args.drop_first()));
        lemma_build_tok_of(args[0]);
        assert forall|i: int| 0 <= i < args.drop_first().len() implies wf_data(
            #[trigger] args.drop_first()[i],
        ) by {
            assert(args.drop_first()[i] == args[i + 1]);
        }
        lemma_build_toks_of_args(args.drop_first());
        assert(seq![args[0]] + args.drop_first() =~= args);
    }
}

proof fn lemma_build_toks_of_kwargs(kwargs: Seq<(Seq<char>, DataV)>)
    requires
        forall|i: int| 0 <= i < kwargs.len() ==> wf_data((#[trigger] kwargs[i]).1),
    ensures
        build_toks(toks_of_kwargs(kwargs)) == Ok::<Seq<DataV>, SdnErrV>(kw_flatten(kwargs)),
    decreases kwargs, 2int,
{
    if kwargs.len() == 0 {
        assert(toks_of_kwargs(kwargs).len() == 0);
        assert(Seq::<DataV>::empty() =~= kw_flatten(kwargs));
    } else {
        let ts = toks_of_kwargs(kwargs);
        let k0 = kwargs[0].0;
        let v0 = kwargs[0].1;
        assert(ts[0] == TokenV::KwT(seq![':'] + k0));
        assert(ts.drop_first() =~= seq![tok_of(v0)] + toks_of_kwargs(kwargs.drop_first()));
        assert(ts.drop_first()[0] == tok_of(v0));
        assert(ts.drop_first().drop_first() =~= toks_of_kwargs(kwargs.drop_first()));
        assert(build_tok(ts[0]) == Ok::<DataV, SdnErrV>(DataV::Keyword(k0))) by {
            assert((seq![':'] + k0).drop_first() =~= k0);
        }
        lemma_build_tok_of(v0);
        assert forall|i: int| 0 <= i < kwargs.drop_first().len() implies wf_data(
            (#[trigger] kwargs.drop_first()[i]).1,
        ) by {
            assert(kwargs.drop_first()[i] == kwargs[i + 1]);
        }
        lemma_build_toks_of_kwargs(kwargs.drop_first());
        assert(build_toks(ts.drop_first()) == Ok::<Seq<DataV>, SdnErrV>(
            seq![v0] + kw_flatten(kwargs.drop_first()),
        ));
        assert(build_toks(ts) == Ok::<Seq<DataV>, SdnErrV>(
            seq![DataV::Keyword(k0)] + (seq![v0] + kw_flatten(kwargs.drop_first())),
        ));
        assert(seq![DataV::Keyword(k0)] + (seq![v0] + kw_flatten(kwargs.drop_first()))
            =~= kw_flatten(kwargs));
    }
}


// ---------------------------------------------------------------------------
// Head decompositions of the serializers
// ---------------------------------------------------------------------------

proof fn lemma_ser_args_head(args: Seq<DataV>)
    requires
        args.len() >= 2,
    ensures
        ser_args(args) == ser_data(args[0]) + seq![' '] + ser_args(args.drop_first()),
    decreases args.len(),
{
    if args.len() == 2 {
        assert(args.drop_last() =~= seq![args[0]]);
        assert(ser_args(seq![args[0]]) == ser_data(args[0]));
        assert(args.drop_first() =~= seq![args[1]]);
        assert(ser_args(seq![args[1]]) == ser_data(args[1]));
        assert(args.last() == args[1]);
    } else {
        let dl = args.drop_last();
        lemma_ser_args_head(dl);
        assert(dl[0] == args[0]);
        let df = args.drop_first();
        assert(dl.drop_first() =~= df.drop_last());
        assert(df.last() == args.last());
        assert(ser_args(df) == ser_args(df.drop_last()) + seq![' '] + ser_data(df.last()));
        assert(ser_data(args[0]) + seq![' '] + (ser_args(df.drop_last()) + seq![' ']
            + ser_data(args.last())) =~= (ser_data(args[0]) + seq![' '] + ser_args(
            df.drop_last(),
        )) + seq![' '] + ser_data(args.last()));
    }
}

proof fn lemma_ser_kwargs_head(kwargs: Seq<(Seq<char>, DataV)>)
    requires
        kwargs.len() >= 2,
    ensures
        ser_kwargs(kwargs) == ser_kw_item(kwargs[0].0, kwargs[0].1) + seq![' '] + ser_kwargs(
            kwargs.drop_first(),
        ),
    decreases kwargs.len(),
{
    if kwargs.len() == 2 {
        assert(kwargs.drop_last() =~= seq![kwargs[0]]);
        assert(kwargs.drop_first() =~= seq![kwargs[1]]);
        assert(kwargs.last() == kwargs[1]);
        assert(ser_kwargs(seq![kwargs[0]]) == ser_kw_item(kwargs[0].0, kwargs[0].1));
        assert(ser_kwargs(seq![kwargs[1]]) == ser_kw_item(kwargs[1].0, kwargs[1].1));
    } else {
        let dl = kwargs.drop_last();
        lemma_ser_kwargs_head(dl);
        assert(dl[0] == kwargs[0]);
        let df = kwargs.drop_first();
        assert(dl.drop_first() =~= df.drop_last());
        assert(df.last() == kwargs.last());
        assert(ser_kwargs(df) == ser_kwargs(df.drop_last()) + seq![' '] + ser_kw_item(
            kwargs.last().0,
            kwargs.last().1,
        ));
        let h = ser_kw_item(kwargs[0].0, kwargs[0].1);
        assert(h + seq![' '] + (ser_kwargs(df.drop_last()) + seq![' '] + ser_kw_item(
            kwargs.last().0,
            kwargs.last().1,
        )) =~= (h + seq![' '] + ser_kwargs(df.drop_last())) + seq![' '] + ser_kw_item(
            kwargs.last().0,
            kwargs.last().1,
        ));
    }
}

proof fn lemma_render_lines_head(vs: Seq<DataV>)
    requires
        vs.len() >= 2,
    ensures
        render_lines(vs) == ser_data(vs[0]) + seq!['\n'] + render_lines(vs.drop_first()),
    decreases vs.len(),
{
    if vs.len() == 2 {
        assert(vs.drop_last() =~= seq![vs[0]]);
        assert(vs.drop_first() =~= seq![vs[1]]);
        assert(vs.last() == vs[1]);
        assert(render_lines(seq![vs[0]]) == ser_data(vs[0]));
        assert(render_lines(seq![vs[1]]) == ser_data(vs[1]));
    } else {
        let dl = vs.drop_last();
        lemma_render_lines_head(dl);
        assert(dl[0] == vs[0]);
        let df = vs.drop_first();
        assert(dl.drop_first() =~= df.drop_last());
        assert(df.last() == vs.last());
        assert(render_lines(df) == render_lines(df.drop_last()) + seq!['\n'] + ser_data(
            df.last(),
        ));
        assert(ser_data(vs[0]) + seq!['\n'] + (render_lines(df.drop_last()) + seq!['\n']
            + ser_data(vs.last())) =~= (ser_data(vs[0]) + seq!['\n'] + render_lines(
            df.drop_last(),
        )) + seq!['\n'] + ser_data(vs.last()));
    }
}


// ---------------------------------------------------------------------------
// The tokenizer consumes serialized text token by token
// ---------------------------------------------------------------------------

/// What may follow a serialized expression: the end of the text,
/// whitespace, or the parenthesis closing its list.
pub open spec fn at_boundary(s: Seq<char>, j: int) -> bool {
    j == s.len() || is_ws_char(s[j]) || s[j] == ')'
}

proof fn lemma_subrange_chars(s: Seq<char>, i: int, t: Seq<char>)
    requires
        0 <= i,
        i + t.len() <= s.len(),
        s.subrange(i, i + t.len() as int) == t,
    ensures
        forall|k: int| 0 <= k < t.len() ==> s[i + k] == #[trigger] t[k],
{
    assert forall|k: int| 0 <= k < t.len() implies s[i + k] == #[trigger] t[k] by {
        assert(s.subrange(i, i + t.len() as int)[k] == s[i + k]);
    }
}

/// An atom run standing at `i` with a boundary after it is consumed as
/// one token of its classification.
proof fn lemma_run_atom(s: Seq<char>, i: int, t: Seq<char>)
    requires
        0 <= i,
        i + t.len() <= s.len(),
        s.subrange(i, i + t.len() as int) == t,
        t.len() >= 1,
        all_atom_chars(t),
        at_boundary(s, i + t.len()),
    ensures
        run_len(s, i) == t.len(),
        s.subrange(i, i + run_len(s, i)) == t,
        s[i] == t[0],
        is_atom_char(s[i]),
        !is_ws_char(s[i]) && s[i] != '(' && s[i] != ')' && s[i] != '"',
{
    lemma_subrange_chars(s, i, t);
    assert forall|k: int| 0 <= k < t.len() implies is_atom_char(#[trigger] s[i + k]) by {
        assert(s[i + k] == t[k]);
    }
    assert(i + t.len() == s.len() || !is_atom_char(s[i + t.len()]));
    lemma_run_len_exact(s, i, t.len() as int);
}

/// Consuming the canonical text of one well-formed value pushes exactly
/// its token.
proof fn lemma_run_ser(s: Seq<char>, i: int, acc: Seq<TokenV>, stack: Seq<Seq<TokenV>>, v: DataV)
    requires
        wf_data(v),
        0 <= i,
        i + ser_data(v).len() <= s.len(),
        s.subrange(i, i + ser_data(v).len() as int) == ser_data(v),
        at_boundary(s, i + ser_data(v).len()),
    ensures
        tok_run(s, i, acc, stack) == tok_run(
            s,
            i + ser_data(v).len(),
            acc.push(tok_of(v)),
            stack,
        ),
    decreases v, 0int,
{
    let e = ser_data(v);
    lemma_subrange_chars(s, i, e);
    match v {
        DataV::Int(n) => {
            lemma_int_text_round_trip(n);
            lemma_int_text_not_float(e);
            lemma_run_atom(s, i, e);
        },
        DataV::Float(ft) => {
            lemma_float_text_shape(e);
            lemma_run_atom(s, i, e);
        },
        DataV::Symbol(st) => {
            lemma_symbol_classifies(e);
            lemma_run_atom(s, i, e);
        },
        DataV::Keyword(n) => {
            assert(e == seq![':'] + n);
            assert(all_atom_chars(e)) by {
                assert(forall|k: int| 1 <= k < e.len() ==> #[trigger] e[k] == n[k - 1]);
                assert(is_atom_char(':'));
            }
            lemma_run_atom(s, i, e);
            assert(e[0] == ':');
        },
        DataV::Str(c) => {
            let enc = encode_str(c);
            assert(e == seq!['"'] + enc + seq!['"']);
            assert(s[i] == e[0] == '"');
            assert(s.subrange(i + 1, i + 1 + enc.len() as int) =~= enc) by {
                assert(forall|k: int|
                    0 <= k < enc.len() ==> s.subrange(i + 1, i + 1 + enc.len() as int)[k] == s[i
                        + 1 + k] && #[trigger] enc[k] == e[k + 1]);
            }
            assert(s[i + 1 + enc.len()] == e[1 + enc.len() as int] == '"');
            lemma_scan_encoded(s, i + 1, c);
            assert(scan_string(s, i + 1) == (StrScanV::Done { raw: enc, end: i + e.len() }));
        },
        DataV::List { args, kwargs } => {
            let inner = (if args.len() > 0 && kwargs.len() > 0 {
                ser_args(args) + seq![' '] + ser_kwargs(kwargs)
            } else if args.len() > 0 {
                ser_args(args)
            } else {
                ser_kwargs(kwargs)
            });
            assert(e == seq!['('] + inner + seq![')']);
            assert(s[i] == e[0] == '(');
            assert(tok_run(s, i, acc, stack) == tok_run(s, i + 1, Seq::empty(), stack.push(acc)));
            let iend = i + e.len() - 1;
            assert(s[iend] == e[e.len() - 1] == ')');
            let children = toks_of_args(args) + toks_of_kwargs(kwargs);
            let stack2 = stack.push(acc);
            assert(forall|k: int| 0 <= k < inner.len() ==> #[trigger] inner[k] == e[k + 1]);
            assert(s.subrange(i + 1, i + 1 + inner.len() as int) =~= inner) by {
                assert(forall|k: int|
                    0 <= k < inner.len() ==> #[trigger] s.subrange(
                        i + 1,
                        i + 1 + inner.len() as int,
                    )[k] == s[i + 1 + k]);
            }
            if args.len() == 0 && kwargs.len() == 0 {
                assert(inner.len() == 0);
                assert(children =~= Seq::<TokenV>::empty());
                assert(tok_run(s, i + 1, Seq::empty(), stack2) == tok_run(
                    s,
                    i + 2,
                    stack2.last().push(TokenV::List(Seq::empty())),
                    stack2.drop_last(),
                ));
                assert(stack2.last() == acc);
                assert(stack2.drop_last() =~= stack);
                assert(tok_of(v) == TokenV::List(children));
            } else {
                if args.len() > 0 && kwargs.len() > 0 {
                    let la = ser_args(args).len() as int;
                    assert(s.subrange(i + 1, i + 1 + la) =~= ser_args(args)) by {
                        assert(forall|k: int|
                            0 <= k < la ==> s.subrange(i + 1, i + 1 + la)[k] == s[i + 1 + k]
                                && #[trigger] ser_args(args)[k] == inner[k]);
                    }
                    assert(s[i + 1 + la] == inner[la] == ' ');
                    lemma_run_ser_args(s, i + 1, Seq::empty(), stack2, args);
                    assert(tok_run(s, i + 1 + la, toks_of_args(args), stack2) == tok_run(
                        s,
                        i + 1 + la + 1,
                        toks_of_args(args),
                        stack2,
                    ));
                    let lk = ser_kwargs(kwargs).len() as int;
                    assert(i + 1 + la + 1 + lk == iend);
                    assert(s.subrange(i + la + 2, i + la + 2 + lk) =~= ser_kwargs(kwargs)) by {
                        assert(forall|k: int|
                            0 <= k < lk ==> s.subrange(i + la + 2, i + la + 2 + lk)[k] == s[i + la
                                + 2 + k] && #[trigger] ser_kwargs(kwargs)[k] == inner[la + 1 + k]);
                    }
                    assert(at_boundary(s, i + la + 2 + lk));
                    lemma_run_ser_kwargs(s, i + la + 2, toks_of_args(args), stack2, kwargs);
                    assert(Seq::<TokenV>::empty() + toks_of_args(args) =~= toks_of_args(args));
                } else if args.len() > 0 {
                    assert(inner == ser_args(args));
                    assert(at_boundary(s, i + 1 + inner.len()));
                    lemma_run_ser_args(s, i + 1, Seq::empty(), stack2, args);
                    assert(Seq::<TokenV>::empty() + toks_of_args(args) =~= toks_of_args(args));
                    assert(toks_of_kwargs(kwargs) =~= Seq::<TokenV>::empty());
                    assert(children =~= toks_of_args(args));
                } else {
                    assert(inner == ser_kwargs(kwargs));
                    assert(at_boundary(s, i + 1 + inner.len()));
                    lemma_run_ser_kwargs(s, i + 1, Seq::empty(), stack2, kwargs);
                    assert(Seq::<TokenV>::empty() + toks_of_kwargs(kwargs) =~= toks_of_kwargs(
                        kwargs,
                    ));
                    assert(toks_of_args(args) =~= Seq::<TokenV>::empty());
                    assert(children =~= toks_of_kwargs(kwargs));
                }
                assert(tok_run(s, i, acc, stack) == tok_run(s, iend, children, stack2));
                assert(tok_run(s, iend, children, stack2) == tok_run(
                    s,
                    iend + 1,
                    stack2.last().push(TokenV::List(children)),
                    stack2.drop_last(),
                ));
                assert(stack2.last() == acc);
                assert(stack2.drop_last() =~= stack);
                assert(tok_of(v) == TokenV::List(children));
            }
        },
        DataV::Nil => {
            assert(false);
        },
    }
}

proof fn lemma_run_ser_args(
    s: Seq<char>,
    i: int,
    acc: Seq<TokenV>,
    stack: Seq<Seq<TokenV>>,
    args: Seq<DataV>,
)
    requires
        forall|k: int| 0 <= k < args.len() ==> wf_data(#[trigger] args[k]),
        args.len() >= 1,
        0 <= i,
        i + ser_args(args).len() <= s.len(),
        s.subrange(i, i + ser_args(args).len() as int) == ser_args(args),
        at_boundary(s, i + ser_args(args).len()),
    ensures
        tok_run(s, i, acc, stack) == tok_run(
            s,
            i + ser_args(args).len(),
            acc + toks_of_args(args),
            stack,
        ),
    decreases args, 1int,
{
    if args.len() == 1 {
        assert(ser_args(args) == ser_data(args[0]));
        lemma_run_ser(s, i, acc, stack, args[0]);
        assert(toks_of_args(args.drop_first()) =~= Seq::<TokenV>::empty());
        assert(acc.push(tok_of(args[0])) =~= acc + toks_of_args(args));
    } else {
        lemma_ser_args_head(args);
        let e0 = ser_data(args[0]);
        let rest = args.drop_first();
        let er = ser_args(rest);
        let whole = ser_args(args);
        assert(whole == e0 + seq![' '] + er);
        lemma_subrange_chars(s, i, whole);
        assert(s.subrange(i, i + e0.len() as int) =~= e0) by {
            assert(forall|k: int|
                0 <= k < e0.len() ==> s.subrange(i, i + e0.len() as int)[k] == s[i + k]
                    && #[trigger] e0[k] == whole[k]);
        }
        assert(s[i + e0.len()] == whole[e0.len() as int] == ' ');
        lemma_run_ser(s, i, acc, stack, args[0]);
        let j = i + e0.len() as int;
        assert(tok_run(s, j, acc.push(tok_of(args[0])), stack) == tok_run(
            s,
            j + 1,
            acc.push(tok_of(args[0])),
            stack,
        ));
        assert(s.subrange(j + 1, j + 1 + er.len() as int) =~= er) by {
            assert(forall|k: int|
                0 <= k < er.len() ==> s.subrange(j + 1, j + 1 + er.len() as int)[k] == s[j + 1 + k]
                    && #[trigger] er[k] == whole[e0.len() + 1 + k]);
        }
        assert forall|k: int| 0 <= k < rest.len() implies wf_data(#[trigger] rest[k]) by {
            assert(rest[k] == args[k + 1]);
        }
        assert(j + 1 + er.len() == i + whole.len());
        lemma_run_ser_args(s, j + 1, acc.push(tok_of(args[0])), stack, rest);
        assert(acc.push(tok_of(args[0])) + toks_of_args(rest) =~= acc + toks_of_args(args));
    }
}

proof fn lemma_run_ser_kwargs(
    s: Seq<char>,
    i: int,
    acc: Seq<TokenV>,
    stack: Seq<Seq<TokenV>>,
    kwargs: Seq<(Seq<char>, DataV)>,
)
    requires
        forall|k: int|
            0 <= k < kwargs.len() ==> valid_keyword_name((#[trigger] kwargs[k]).0) && wf_data(
                kwargs[k].1,
            ),
        kwargs.len() >= 1,
        0 <= i,
        i + ser_kwargs(kwargs).len() <= s.len(),
        s.subrange(i, i + ser_kwargs(kwargs).len() as int) == ser_kwargs(kwargs),
        at_boundary(s, i + ser_kwargs(kwargs).len()),
    ensures
        tok_run(s, i, acc, stack) == tok_run(
            s,
            i + ser_kwargs(kwargs).len(),
            acc + toks_of_kwargs(kwargs),
            stack,
        ),
    decreases kwargs, 1int,
{
    let k0 = kwargs[0].0;
    let v0 = kwargs[0].1;
    let item = ser_kw_item(k0, v0);
    let kt = seq![':'] + k0;
    let ev = ser_data(v0);
    assert(item == seq![':'] + k0 + seq![' '] + ev);
    let whole = ser_kwargs(kwargs);
    let single = kwargs.len() == 1;
    if single {
        assert(whole == item);
    } else {
        lemma_ser_kwargs_head(kwargs);
        assert(whole == item + seq![' '] + ser_kwargs(kwargs.drop_first()));
    }
    lemma_subrange_chars(s, i, whole);
    assert(forall|k: int| 0 <= k < item.len() ==> #[trigger] item[k] == whole[k]);
    // the keyword marker and name form one atom run
    assert(all_atom_chars(kt)) by {
        assert(forall|k: int| 1 <= k < kt.len() ==> #[trigger] kt[k] == k0[k - 1]);
        assert(is_atom_char(':'));
    }
    assert(forall|k: int| 0 <= k < kt.len() ==> #[trigger] kt[k] == item[k]);
    assert(s.subrange(i, i + kt.len() as int) =~= kt) by {
        assert(forall|k: int|
            0 <= k < kt.len() ==> #[trigger] s.subrange(i, i + kt.len() as int)[k] == s[i + k]);
    }
    assert(item[kt.len() as int] == ' ') by {
        assert(seq![':'] + k0 + seq![' '] =~= kt.push(' '));
    }
    assert(s[i + kt.len()] == whole[kt.len() as int] == ' ');
    lemma_run_atom(s, i, kt);
    assert(kt[0] == ':');
    assert(classify_run(kt) == RunClassV::Kw);
    let acc1 = acc.push(TokenV::KwT(kt));
    assert(tok_run(s, i, acc, stack) == tok_run(s, i + kt.len(), acc1, stack));
    let j = i + kt.len() as int;
    assert(tok_run(s, j, acc1, stack) == tok_run(s, j + 1, acc1, stack));
    // the value follows, then the caller's boundary or the next item
    assert(forall|k: int| 0 <= k < ev.len() ==> #[trigger] ev[k] == item[kt.len() + 1 + k]);
    assert(s.subrange(j + 1, j + 1 + ev.len() as int) =~= ev) by {
        assert(forall|k: int|
            0 <= k < ev.len() ==> #[trigger] s.subrange(j + 1, j + 1 + ev.len() as int)[k] == s[j
                + 1 + k]);
    }
    assert(j + 1 + ev.len() == i + item.len());
    if single {
        assert(at_boundary(s, j + 1 + ev.len()));
        lemma_run_ser(s, j + 1, acc1, stack, v0);
        assert(toks_of_kwargs(kwargs.drop_first()) =~= Seq::<TokenV>::empty());
        assert(acc1.push(tok_of(v0)) =~= acc + toks_of_kwargs(kwargs));
    } else {
        assert(s[i + item.len()] == whole[item.len() as int] == ' ');
        lemma_run_ser(s, j + 1, acc1, stack, v0);
        let acc2 = acc1.push(tok_of(v0));
        let m = i + item.len() as int;
        assert(tok_run(s, m, acc2, stack) == tok_run(s, m + 1, acc2, stack));
        let rest = kwargs.drop_first();
        let er = ser_kwargs(rest);
        assert(forall|k: int| 0 <= k < er.len() ==> #[trigger] er[k] == whole[item.len() + 1 + k]);
        assert(s.subrange(m + 1, m + 1 + er.len() as int) =~= er) by {
            assert(forall|k: int|
                0 <= k < er.len() ==> #[trigger] s.subrange(m + 1, m + 1 + er.len() as int)[k]
                    == s[m + 1 + k]);
        }
        assert forall|k: int| 0 <= k < rest.len() implies valid_keyword_name(
            (#[trigger] rest[k]).0,
        ) && wf_data(rest[k].1) by {
            assert(rest[k] == kwargs[k + 1]);
        }
        assert(m + 1 + er.len() == i + whole.len());
        lemma_run_ser_kwargs(s, m + 1, acc2, stack, rest);
        assert(acc2 + toks_of_kwargs(rest) =~= acc + toks_of_kwargs(kwargs));
    }
}


// ---------------------------------------------------------------------------
// Parsing rendered output
// ---------------------------------------------------------------------------

proof fn lemma_run_render(
    s: Seq<char>,
    i: int,
    acc: Seq<TokenV>,
    stack: Seq<Seq<TokenV>>,
    vs: Seq<DataV>,
)
    requires
        wf_data_seq(vs),
        vs.len() >= 1,
        0 <= i,
        i + render_lines(vs).len() <= s.len(),
        s.subrange(i, i + render_lines(vs).len() as int) == render_lines(vs),
        at_boundary(s, i + render_lines(vs).len()),
    ensures
        tok_run(s, i, acc, stack) == tok_run(
            s,
            i + render_lines(vs).len(),
            acc + toks_of_args(vs),
            stack,
        ),
    decreases vs.len(),
{
    if vs.len() == 1 {
        assert(render_lines(vs) == ser_data(vs[0]));
        assert(wf_data(vs[0]));
        lemma_run_ser(s, i, acc, stack, vs[0]);
        assert(toks_of_args(vs.drop_first()) =~= Seq::<TokenV>::empty());
        assert(acc.push(tok_of(vs[0])) =~= acc + toks_of_args(vs));
    } else {
        lemma_render_lines_head(vs);
        let e0 = ser_data(vs[0]);
        let rest = vs.drop_first();
        let er = render_lines(rest);
        let whole = render_lines(vs);
        assert(whole == e0 + seq!['\n'] + er);
        lemma_subrange_chars(s, i, whole);
        assert(s.subrange(i, i + e0.len() as int) =~= e0) by {
            assert(forall|k: int|
                0 <= k < e0.len() ==> s.subrange(i, i + e0.len() as int)[k] == s[i + k]
                    && #[trigger] e0[k] == whole[k]);
        }
        assert(s[i + e0.len()] == whole[e0.len() as int] == '\n');
        assert(wf_data(vs[0]));
        lemma_run_ser(s, i, acc, stack, vs[0]);
        let j = i + e0.len() as int;
        assert(tok_run(s, j, acc.push(tok_of(vs[0])), stack) == tok_run(
            s,
            j + 1,
            acc.push(tok_of(vs[0])),
            stack,
        ));
        assert(s.subrange(j + 1, j + 1 + er.len() as int) =~= er) by {
            assert(forall|k: int|
                0 <= k < er.len() ==> #[trigger] s.subrange(j + 1, j + 1 + er.len() as int)[k]
                    == s[j + 1 + k] && er[k] == whole[e0.len() + 1 + k]);
        }
        assert forall|k: int| 0 <= k < rest.len() implies wf_data(#[trigger] rest[k]) by {
            assert(rest[k] == vs[k + 1]);
        }
        assert(j + 1 + er.len() == i + whole.len());
        lemma_run_render(s, j + 1, acc.push(tok_of(vs[0])), stack, rest);
        assert(acc.push(tok_of(vs[0])) + toks_of_args(rest) =~= acc + toks_of_args(vs));
    }
}

/// Rendering well-formed values line by line and parsing the text back
/// yields exactly those values.
pub proof fn lemma_render_round_trip(vs: Seq<DataV>)
    requires
        wf_data_seq(vs),
    ensures
        spec_parse(render_lines(vs)) == ParseOutV::Vals(vs),
{
    let s = render_lines(vs);
    let ts = toks_of_args(vs);
    if vs.len() == 0 {
        assert(s.len() == 0);
        assert(spec_tokenize(s) == TokOutV::Toks(
            Seq::<TokenV>::empty().push(TokenV::End),
        ));
        assert(ts =~= Seq::<TokenV>::empty());
    } else {
        assert(s.subrange(0, s.len() as int) =~= s);
        assert(at_boundary(s, s.len() as int));
        lemma_run_render(s, 0, Seq::empty(), Seq::empty(), vs);
        assert(tok_run(s, s.len() as int, Seq::<TokenV>::empty() + ts, Seq::empty())
            == TokOutV::Toks((Seq::<TokenV>::empty() + ts).push(TokenV::End)));
        assert(Seq::<TokenV>::empty() + ts =~= ts);
    }
    assert(spec_tokenize(s) == TokOutV::Toks(ts.push(TokenV::End)));
    lemma_build_toks_of_args(vs);
    assert(build_toks(seq![TokenV::End]) == Ok::<Seq<DataV>, SdnErrV>(seq![DataV::Nil])) by {
        assert(seq![TokenV::End][0] == TokenV::End);
        assert(build_tok(TokenV::End) == Ok::<DataV, SdnErrV>(DataV::Nil));
        assert(seq![TokenV::End].drop_first() =~= Seq::<TokenV>::empty());
        assert(build_toks(Seq::<TokenV>::empty()) == Ok::<Seq<DataV>, SdnErrV>(Seq::empty()));
        assert(seq![DataV::Nil] + Seq::<DataV>::empty() =~= seq![DataV::Nil]);
    }
    lemma_build_toks_concat(ts, seq![TokenV::End]);
    assert(ts + seq![TokenV::End] =~= ts.push(TokenV::End));
    assert(build_toks(ts.push(TokenV::End)) == Ok::<Seq<DataV>, SdnErrV>(
        vs + seq![DataV::Nil],
    ));
    assert((vs + seq![DataV::Nil]).drop_last() =~= vs);
}


// ---------------------------------------------------------------------------
// Parsed values are well formed
// ---------------------------------------------------------------------------

/// The end-of-input marker stands nowhere inside a token tree.
pub open spec fn no_end_token(t: TokenV) -> bool
    decreases t,
{
    match t {
        TokenV::List(children) => forall|i: int|
            0 <= i < children.len() ==> no_end_token(#[trigger] children[i]),
        TokenV::End => false,
        _ => true,
    }
}

pub open spec fn no_end_tokens(ts: Seq<TokenV>) -> bool {
    forall|i: int| 0 <= i < ts.len() ==> no_end_token(#[trigger] ts[i])
}

/// Within one run, the marker appears only as the very last top-level
/// token.
proof fn lemma_tok_run_no_end(s: Seq<char>, i: int, acc: Seq<TokenV>, stack: Seq<Seq<TokenV>>)
    requires
        no_end_tokens(acc),
        forall|k: int| 0 <= k < stack.len() ==> no_end_tokens(#[trigger] stack[k]),
    ensures
        tok_run(s, i, acc, stack) matches TokOutV::Toks(ts) ==> no_end_tokens(ts.drop_last()),
    decreases s.len() - i,
{
    if i < 0 {
    } else if i >= s.len() {
        if stack.len() == 0 {
            assert(acc.push(TokenV::End).drop_last() =~= acc);
        }
    } else if is_ws_char(s[i]) {
        lemma_tok_run_no_end(s, i + 1, acc, stack);
    } else if s[i] == '(' {
        lemma_tok_run_no_end(s, i + 1, Seq::empty(), stack.push(acc));
    } else if s[i] == ')' {
        if stack.len() > 0 {
            let acc2 = stack.last().push(TokenV::List(acc));
            assert(no_end_token(TokenV::List(acc)));
            assert(no_end_tokens(acc2));
            lemma_tok_run_no_end(s, i + 1, acc2, stack.drop_last());
        }
    } else if s[i] == '"' {
        match scan_string(s, i + 1) {
            StrScanV::Done { raw, end } => {
                crate::model::lemma_scan_string_end(s, i + 1);
                assert(no_end_tokens(acc.push(TokenV::StrT(raw))));
                lemma_tok_run_no_end(s, end, acc.push(TokenV::StrT(raw)), stack);
            },
            _ => {},
        }
    } else {
        lemma_run_len_bounds(s, i);
        let t2 = s.subrange(i, i + run_len(s, i));
        let j = i + run_len(s, i);
        match classify_run(t2) {
            RunClassV::Kw => {
                assert(no_end_tokens(acc.push(TokenV::KwT(t2))));
                lemma_tok_run_no_end(s, j, acc.push(TokenV::KwT(t2)), stack);
            },
            RunClassV::Fl => {
                assert(no_end_tokens(acc.push(TokenV::FloatT(t2))));
                lemma_tok_run_no_end(s, j, acc.push(TokenV::FloatT(t2)), stack);
            },
            RunClassV::In => {
                assert(no_end_tokens(acc.push(TokenV::IntT(t2))));
                lemma_tok_run_no_end(s, j, acc.push(TokenV::IntT(t2)), stack);
            },
            RunClassV::BadNum => {},
            RunClassV::Sym => {
                assert(no_end_tokens(acc.push(TokenV::SymT(t2))));
                lemma_tok_run_no_end(s, j, acc.push(TokenV::SymT(t2)), stack);
            },
        }
    }
}

/// The reduction only rearranges well-formed children into well-formed
/// positional and keyword parts.
proof fn lemma_reduce_wf(
    vs: Seq<DataV>,
    args: Seq<DataV>,
    kwargs: Seq<(Seq<char>, DataV)>,
    pending: Option<Seq<char>>,
)
    requires
        forall|i: int| 0 <= i < vs.len() ==> wf_data(#[trigger] vs[i]),
        forall|i: int| 0 <= i < args.len() ==> wf_data(#[trigger] args[i]) && !(args[i] is Keyword),
        forall|i: int|
            0 <= i < kwargs.len() ==> valid_keyword_name((#[trigger] kwargs[i]).0) && wf_data(
                kwargs[i].1,
            ) && !(kwargs[i].1 is Keyword),
        unique_keys(kwargs),
        pending matches Some(p) ==> valid_keyword_name(p),
    ensures
        reduce_step(vs, args, kwargs, pending) matches Ok(out) ==> wf_data(
            DataV::List { args: out.0, kwargs: out.1 },
        ),
    decreases vs.len(),
{
    if vs.len() == 0 {
    } else {
        assert(wf_data(vs[0]));
        assert forall|i: int| 0 <= i < vs.drop_first().len() implies wf_data(
            #[trigger] vs.drop_first()[i],
        ) by {
            assert(vs.drop_first()[i] == vs[i + 1]);
        }
        match vs[0] {
            DataV::Keyword(name) => {
                match pending {
                    Some(_) => {},
                    None => {
                        lemma_reduce_wf(vs.drop_first(), args, kwargs, Some(name));
                    },
                }
            },
            _ => {
                match pending {
                    Some(k) => {
                        if !has_key(kwargs, k) {
                            let kwargs2 = kwargs.push((k, vs[0]));
                            assert(unique_keys(kwargs2)) by {
                                assert forall|a: int, b: int|
                                    0 <= a < b < kwargs2.len() implies (#[trigger] kwargs2[a]).0
                                    != (#[trigger] kwargs2[b]).0 by {
                                    if b == kwargs.len() as int {
                                        assert(kwargs2[b].0 == k);
                                        assert(kwargs2[a] == kwargs[a]);
                                        if kwargs[a].0 == k {
                                            assert(has_key(kwargs, k));
                                        }
                                    } else {
                                        assert(kwargs2[a] == kwargs[a]);
                                        assert(kwargs2[b] == kwargs[b]);
                                    }
                                }
                            }
                            lemma_reduce_wf(vs.drop_first(), args, kwargs2, None);
                        }
                    },
                    None => {
                        lemma_reduce_wf(vs.drop_first(), args.push(vs[0]), kwargs, None);
                    },
                }
            },
        }
    }
}

/// Building a well-shaped token that is not the end marker yields a
/// well-formed value.
proof fn lemma_build_wf(t: TokenV)
    requires
        wf_token(t),
        no_end_token(t),
    ensures
        build_tok(t) matches Ok(v) ==> wf_data(v),
    decreases t, 1int,
{
    match t {
        TokenV::List(children) => {
            lemma_build_toks_wf(children);
            match build_toks(children) {
                Ok(vs) => {
                    lemma_reduce_wf(vs, Seq::empty(), Seq::empty(), None);
                },
                Err(_) => {},
            }
        },
        TokenV::KwT(txt) => {
            assert(valid_keyword_name(txt.drop_first())) by {
                assert(forall|k: int|
                    0 <= k < txt.len() - 1 ==> #[trigger] txt.drop_first()[k] == txt[k + 1]);
            }
        },
        _ => {},
    }
}

proof fn lemma_build_toks_wf(ts: Seq<TokenV>)
    requires
        wf_tokens(ts),
        no_end_tokens(ts),
    ensures
        build_toks(ts) matches Ok(vs) ==> vs.len() == ts.len() && forall|i: int|
            0 <= i < vs.len() ==> wf_data(#[trigger] vs[i]),
    decreases ts, 2int,
{
    if ts.len() == 0 {
    } else {
        lemma_build_wf(ts[0]);
        assert(wf_tokens(ts.drop_first()) && no_end_tokens(ts.drop_first())) by {
            assert(forall|i: int|
                0 <= i < ts.drop_first().len() ==> #[trigger] ts.drop_first()[i] == ts[i + 1]);
        }
        lemma_build_toks_wf(ts.drop_first());
        match build_tok(ts[0]) {
            Ok(v) => {
                match build_toks(ts.drop_first()) {
                    Ok(vs2) => {
                        assert forall|i: int| 0 <= i < vs2.len() + 1 implies wf_data(
                            #[trigger] (seq![v] + vs2)[i],
                        ) by {
                            if i == 0 {
                                assert((seq![v] + vs2)[0] == v);
                            } else {
                                assert((seq![v] + vs2)[i] == vs2[i - 1]);
                            }
                        }
                    },
                    Err(_) => {},
                }
            },
            Err(_) => {},
        }
    }
}

/// Every value a successful parse delivers is well formed; in
/// particular `Nil` never appears in results.
pub proof fn lemma_parse_values_well_formed(s: Seq<char>, vs: Seq<DataV>)
    requires
        spec_parse(s) == ParseOutV::Vals(vs),
    ensures
        wf_data_seq(vs),
{
    let out = spec_tokenize(s);
    match out {
        TokOutV::Toks(ts) => {
            crate::model::lemma_tok_run_wf(s, 0, Seq::empty(), Seq::empty());
            lemma_tok_run_no_end(s, 0, Seq::empty(), Seq::empty());
            let front = ts.drop_last();
            assert(wf_tokens(front)) by {
                assert(forall|i: int|
                    0 <= i < front.len() ==> #[trigger] front[i] == ts[i]);
            }
            lemma_build_toks_wf(front);
            assert(ts =~= front + seq![ts.last()]);
            assert(ts.last() == TokenV::End);
            lemma_build_toks_concat(front, seq![TokenV::End]);
            assert(build_toks(seq![TokenV::End]) == Ok::<Seq<DataV>, SdnErrV>(
                seq![DataV::Nil],
            )) by {
                assert(seq![TokenV::End][0] == TokenV::End);
                assert(build_tok(TokenV::End) == Ok::<DataV, SdnErrV>(DataV::Nil));
                assert(seq![TokenV::End].drop_first() =~= Seq::<TokenV>::empty());
                assert(build_toks(Seq::<TokenV>::empty()) == Ok::<Seq<DataV>, SdnErrV>(
                    Seq::empty(),
                ));
                assert(seq![DataV::Nil] + Seq::<DataV>::empty() =~= seq![DataV::Nil]);
            }
            match build_toks(front) {
                Ok(fvs) => {
                    assert(build_toks(ts) == Ok::<Seq<DataV>, SdnErrV>(fvs + seq![DataV::Nil]));
                    assert(vs == (fvs + seq![DataV::Nil]).drop_last());
                    assert(vs =~= fvs);
                },
                Err(_) => {
                    assert(false);
                },
            }
        },
        TokOutV::Fail { .. } => {
            assert(false);
        },
    }
}

/// Serialization is consistent with parsing: whatever text parses to a
/// sequence of values, rendering those values line by line parses back
/// to the same sequence.
pub proof fn lemma_parse_serialize_round_trip(s: Seq<char>, vs: Seq<DataV>)
    requires
        spec_parse(s) == ParseOutV::Vals(vs),
    ensures
        spec_parse(render_lines(vs)) == ParseOutV::Vals(vs),
{
    lemma_parse_values_well_formed(s, vs);
    lemma_render_round_trip(vs);
}

} // verus!

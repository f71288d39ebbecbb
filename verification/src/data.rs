//! The value tree produced by parsing.

use vstd::prelude::*;
use vstd::string::StrSliceExecFns;
use vstd::string::StringExecFns;
use crate::model::DataV;
use crate::model::{ser_data, ser_args, ser_kwargs, ser_kw_item, encode_str};

verus! {

/// Relies on `String::push`: appends the one character to the end of
/// the string and changes nothing else.
pub assume_specification[ String::push ](s: &mut String, ch: char)
    ensures
        final(s)@ == old(s)@.push(ch),
;

/// Keyword arguments of a list, in insertion order. A well-formed map
/// never holds the same key twice.
pub type KeywordMap = Vec<(String, Data)>;

/// One value of the notation.
///
/// `Float` keeps the token text of the literal (sign, integer digits,
/// dot, fraction digits) exactly as written, so rendering a parsed tree
/// reproduces the literal; the numeric value is the caller's to compute.
/// `Nil` marks end of input while parsing and never appears in results.
#[derive(Debug, PartialEq, Eq)]
pub enum Data {
    List { args: Vec<Data>, kwargs: KeywordMap },
    Int(i64),
    Float(String),
    Str(String),
    Symbol(String),
    Keyword(String),
    Nil,
}

impl DeepView for Data {
    type V = DataV;

    open spec fn deep_view(&self) -> DataV
        decreases self,
    {
        match self {
            Data::List { args, kwargs } => DataV::List {
                args: Seq::new(
                    args@.len(),
                    |i: int|
                        if 0 <= i < args@.len() {
                            args@[i].deep_view()
                        } else {
                            DataV::Nil
                        },
                ),
                kwargs: Seq::new(
                    kwargs@.len(),
                    |i: int|
                        (
                            if 0 <= i < kwargs@.len() {
                                kwargs@[i].0@
                            } else {
                                Seq::empty()
                            },
                            if 0 <= i < kwargs@.len() {
                                kwargs@[i].1.deep_view()
                            } else {
                                DataV::Nil
                            },
                        ),
                ),
            },
            Data::Int(i) => DataV::Int(*i as int),
            Data::Float(t) => DataV::Float(t@),
            Data::Str(s) => DataV::Str(s@),
            Data::Symbol(s) => DataV::Symbol(s@),
            Data::Keyword(s) => DataV::Keyword(s@),
            Data::Nil => DataV::Nil,
        }
    }
}


// ---------------------------------------------------------------------------
// Canonical serialization
// ---------------------------------------------------------------------------

fn digit_to_char(d: u64) -> (c: char)
    requires
        d <= 9,
    ensures
        c == crate::model::digit_char(d as int),
{
    if d == 0 {
        '0'
    } else if d == 1 {
        '1'
    } else if d == 2 {
        '2'
    } else if d == 3 {
        '3'
    } else if d == 4 {
        '4'
    } else if d == 5 {
        '5'
    } else if d == 6 {
        '6'
    } else if d == 7 {
        '7'
    } else if d == 8 {
        '8'
    } else {
        '9'
    }
}

/// Append the decimal digits of `m`, most significant first.
fn push_dec(m: u64, out: &mut String)
    ensures
        final(out)@ == old(out)@ + crate::model::dec_digits(m as int),
    decreases m,
{
    if m >= 10 {
        push_dec(m / 10, out);
    }
    let ghost mid = out@;
    out.push(digit_to_char(m % 10));
    proof {
        if m >= 10 {
            assert(mid.push(crate::model::digit_char((m % 10) as int)) =~= old(out)@
                + crate::model::dec_digits(m as int));
        } else {
            assert(mid.push(crate::model::digit_char(m as int)) =~= old(out)@
                + crate::model::dec_digits(m as int));
        }
    }
}

/// Decimal text of an integer, with a minus sign when negative.
fn int_to_string(i: i64) -> (r: String)
    ensures
        r@ == crate::model::int_text_of(i as int),
{
    let mut out = String::new();
    let m: u64;
    if i >= 0 {
        m = i as u64;
    } else {
        out.push('-');
        m = ((-(i + 1)) as u64) + 1;
        proof {
            assert(m as int == -(i as int));
        }
    }
    push_dec(m, &mut out);
    proof {
        if i < 0 {
            assert(Seq::<char>::empty().push('-') =~= seq!['-']);
        } else {
            assert(Seq::<char>::empty() + crate::model::dec_digits(m as int)
                =~= crate::model::dec_digits(m as int));
        }
    }
    out
}

fn escape_code_exec(c: char) -> (r: char)
    ensures
        r == crate::model::escape_code_of(c),
{
    if c == '\n' {
        'n'
    } else if c == '\t' {
        't'
    } else if c == '"' {
        '"'
    } else {
        '\\'
    }
}

/// Append `t` re-encoded: newline, tab, quote and backslash get their
/// escape sequence, every other character is copied verbatim.
#[verifier::loop_isolation(false)]
fn push_encoded(t: &str, out: &mut String)
    ensures
        final(out)@ == old(out)@ + crate::model::encode_str(t@),
{
    let n = t.unicode_len();
    let mut j: usize = 0;
    proof {
        assert(t@.skip(0) =~= t@);
        assert(old(out)@ + Seq::<char>::empty() =~= old(out)@);
    }
    while j < n
        invariant
            j <= n,
            old(out)@ + crate::model::encode_str(t@) == out@ + crate::model::encode_str(
                t@.skip(j as int),
            ),
        decreases n - j,
    {
        let c = t.get_char(j);
        let ghost rest = t@.skip(j as int);
        let ghost outpre = out@;
        proof {
            assert(rest[0] == t@[j as int]);
            assert(rest.skip(1) =~= t@.skip(j + 1));
        }
        if c == '\n' || c == '\t' || c == '"' || c == '\\' {
            out.push('\\');
            out.push(escape_code_exec(c));
            proof {
                assert(outpre + seq!['\\', crate::model::escape_code_of(c)] =~= out@);
            }
        } else {
            out.push(c);
            proof {
                assert(outpre + seq![c] =~= out@);
            }
        }
        proof {
            assert(crate::model::encode_str(rest) == (if crate::model::needs_escape(c) {
                seq!['\\', crate::model::escape_code_of(c)]
            } else {
                seq![c]
            }) + crate::model::encode_str(t@.skip(j + 1)));
            assert(outpre + crate::model::encode_str(rest) =~= out@ + crate::model::encode_str(
                t@.skip(j + 1),
            ));
        }
        j = j + 1;
    }
    proof {
        assert(t@.skip(n as int) =~= Seq::<char>::empty());
        assert(out@ + Seq::<char>::empty() =~= out@);
    }
}


impl Data {
    /// Canonical text of this value. Re-parsing the text yields an
    /// equal value tree; see the lemmas in `laws`.
    #[verifier::loop_isolation(false)]
    #[verifier::rlimit(60)]
    pub fn repr(&self) -> (r: String)
        ensures
            r@ == ser_data(self.deep_view()),
        decreases self,
    {
        match self {
            Data::Symbol(s) => s.clone(),
            Data::Float(t) => t.clone(),
            Data::Int(i) => int_to_string(*i),
            Data::Keyword(k) => {
                let mut out = String::new();
                out.push(':');
                out.append(k.as_str());
                proof {
                    assert(Seq::<char>::empty().push(':') + k@ =~= seq![':'] + k@);
                }
                out
            },
            Data::Nil => {
                let out = "nil".to_owned();
                proof {
                    reveal_strlit("nil");
                    assert(out@ =~= seq!['n', 'i', 'l']);
                }
                out
            },
            Data::Str(s) => {
                let mut out = String::new();
                out.push('"');
                proof {
                    assert(Seq::<char>::empty().push('"') =~= seq!['"']);
                }
                push_encoded(s.as_str(), &mut out);
                out.push('"');
                proof {
                    assert((seq!['"'] + encode_str(s@)).push('"') =~= seq!['"'] + encode_str(s@)
                        + seq!['"']);
                }
                out
            },
            Data::List { args, kwargs } => {
                let ghost argsv = self.deep_view()->List_args;
                let ghost kwargsv = self.deep_view()->List_kwargs;
                proof {
                    assert(argsv.len() == args@.len());
                    assert(kwargsv.len() == kwargs@.len());
                }
                let mut out = String::new();
                out.push('(');
                proof {
                    assert(out@ =~= seq!['(']);
                    assert(argsv.take(0) =~= Seq::<DataV>::empty());
                    assert(out@ + ser_args(argsv.take(0)) =~= out@);
                }
                let mut idx: usize = 0;
                while idx < args.len()
                    invariant
                        idx <= args@.len(),
                        out@ == seq!['('] + ser_args(argsv.take(idx as int)),
                    decreases args@.len() - idx,
                {
                    if idx > 0 {
                        out.push(' ');
                    }
                    proof {
                        assert(decreases_to!(*self => (*self)->List_args));
                        assert(decreases_to!((*self)->List_args => args@[idx as int]));
                    }
                    let piece = args[idx].repr();
                    out.append(piece.as_str());
                    proof {
                        assert(argsv[idx as int] == args@[idx as int].deep_view());
                        assert(argsv.take(idx + 1).drop_last() =~= argsv.take(idx as int));
                        assert(argsv.take(idx + 1).last() == argsv[idx as int]);
                        if idx == 0 {
                            assert(out@ =~= seq!['('] + ser_args(argsv.take(1)));
                        } else {
                            assert(ser_args(argsv.take(idx + 1)) == ser_args(argsv.take(idx as int))
                                + seq![' '] + ser_data(argsv[idx as int]));
                            assert(out@ =~= seq!['('] + ser_args(argsv.take(idx + 1)));
                        }
                    }
                    idx = idx + 1;
                }
                proof {
                    assert(argsv.take(args@.len() as int) =~= argsv);
                    assert(kwargsv.take(0) =~= Seq::<(Seq<char>, DataV)>::empty());
                }
                let mut kdx: usize = 0;
                while kdx < kwargs.len()
                    invariant
                        kdx <= kwargs@.len(),
                        out@ == seq!['('] + (if argsv.len() > 0 && kdx > 0 {
                            ser_args(argsv) + seq![' '] + ser_kwargs(kwargsv.take(kdx as int))
                        } else if argsv.len() > 0 {
                            ser_args(argsv)
                        } else {
                            ser_kwargs(kwargsv.take(kdx as int))
                        }),
                    decreases kwargs@.len() - kdx,
                {
                    let ghost outpre = out@;
                    if args.len() > 0 || kdx > 0 {
                        out.push(' ');
                    }
                    out.push(':');
                    out.append(kwargs[kdx].0.as_str());
                    out.push(' ');
                    proof {
                        assert(decreases_to!(*self => (*self)->List_kwargs));
                        assert(decreases_to!((*self)->List_kwargs => kwargs@[kdx as int]));
                        assert(decreases_to!(kwargs@[kdx as int] => kwargs@[kdx as int].1));
                    }
                    let piece = kwargs[kdx].1.repr();
                    out.append(piece.as_str());
                    proof {
                        let k = kdx as int;
                        assert(kwargsv[k] == (kwargs@[k].0@, kwargs@[k].1.deep_view()));
                        assert(kwargsv.take(k + 1).drop_last() =~= kwargsv.take(k));
                        assert(kwargsv.take(k + 1).last() == kwargsv[k]);
                        let item = ser_kw_item(kwargsv[k].0, kwargsv[k].1);
                        assert(item == seq![':'] + kwargsv[k].0 + seq![' '] + ser_data(
                            kwargsv[k].1,
                        ));
                        if k == 0 {
                            assert(ser_kwargs(kwargsv.take(1)) == item);
                        } else {
                            assert(ser_kwargs(kwargsv.take(k + 1)) == ser_kwargs(kwargsv.take(k))
                                + seq![' '] + item);
                        }
                        if args@.len() > 0 || k > 0 {
                            assert(out@ =~= outpre.push(' ').push(':') + kwargs@[k].0@ + seq![' ']
                                + ser_data(kwargsv[k].1));
                            assert(outpre.push(' ') =~= outpre + seq![' ']);
                            assert(outpre + seq![' '] + (seq![':'] + kwargsv[k].0 + seq![' ']
                                + ser_data(kwargsv[k].1)) =~= out@);
                        } else {
                            assert(out@ =~= outpre.push(':') + kwargs@[k].0@ + seq![' ']
                                + ser_data(kwargsv[k].1));
                            assert(outpre + (seq![':'] + kwargsv[k].0 + seq![' '] + ser_data(
                                kwargsv[k].1,
                            )) =~= out@);
                        }
                    }
                    kdx = kdx + 1;
                }
                out.push(')');
                proof {
                    assert(kwargsv.take(kwargs@.len() as int) =~= kwargsv);
                    let inner = (if argsv.len() > 0 && kwargsv.len() > 0 {
                        ser_args(argsv) + seq![' '] + ser_kwargs(kwargsv)
                    } else if argsv.len() > 0 {
                        ser_args(argsv)
                    } else {
                        ser_kwargs(kwargsv)
                    });
                    assert((seq!['('] + inner).push(')') =~= seq!['('] + inner + seq![')']);
                    assert(ser_data(self.deep_view()) == seq!['('] + inner + seq![')']);
                }
                out
            },
        }
    }
}

} // verus!

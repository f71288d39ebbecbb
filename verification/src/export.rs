//! Bulk export: a sequence of values as text, one value per line.

use vstd::prelude::*;
use vstd::string::StringExecFns;
use crate::data::Data;
use crate::model::{DataV, ser_data, render_lines};

verus! {

/// Render each value canonically and join the lines with newlines, with
/// no trailing newline.
#[verifier::loop_isolation(false)]
pub fn data_vec_for_file(data: Vec<Data>) -> (r: String)
    ensures
        r@ == render_lines(data.deep_view()),
{
    let ghost vs = data.deep_view();
    let mut out = String::new();
    proof {
        assert(vs.take(0) =~= Seq::<DataV>::empty());
        assert(out@ =~= render_lines(vs.take(0)));
    }
    let mut idx: usize = 0;
    while idx < data.len()
        invariant
            idx <= data@.len(),
            out@ == render_lines(vs.take(idx as int)),
        decreases data@.len() - idx,
    {
        let ghost outpre = out@;
        if idx > 0 {
            out.push('\n');
        }
        let piece = data[idx].repr();
        out.append(piece.as_str());
        proof {
            assert(vs[idx as int] == data@[idx as int].deep_view());
            assert(vs.take(idx + 1).drop_last() =~= vs.take(idx as int));
            assert(vs.take(idx + 1).last() == vs[idx as int]);
            if idx == 0 {
                assert(out@ =~= render_lines(vs.take(1)));
            } else {
                assert(render_lines(vs.take(idx + 1)) == render_lines(vs.take(idx as int))
                    + seq!['\n'] + ser_data(vs[idx as int]));
                assert(outpre.push('\n') =~= outpre + seq!['\n']);
                assert(out@ =~= render_lines(vs.take(idx + 1)));
            }
        }
        idx = idx + 1;
    }
    proof {
        assert(vs.take(data@.len() as int) =~= vs);
    }
    out
}

} // verus!

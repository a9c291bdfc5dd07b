//! The proposer boundary: rendering a proposed op list in human-readable
//! form. The generator itself is an outside collaborator; only its line
//! grammar is interpreted here.

use vstd::prelude::*;
use crate::strnum::dec_str;

verus! {

/// The human-readable interpretation of one proposed op line.
pub open spec fn spec_interpret_line(i: int, op: Seq<char>) -> Seq<char> {
    if crate::exec::starts_with(op, "LOAD "@) {
        "Step "@ + dec_str(i) + ": LOAD "@ + op.skip("LOAD "@.len() as int)
    } else if op == "MASK_BIT bit=2 val=1"@ {
        "Step "@ + dec_str(i) + ": MASK_BIT (den<=6 := true)"@
    } else if crate::exec::starts_with(op, "WITNESS_NEAREST target="@) {
        "Step "@ + dec_str(i) + ": WITNESS_NEAREST(target="@ + op.skip(
            "WITNESS_NEAREST target="@.len() as int,
        ) + ", metric=ABS_DIFF)"@
    } else if op == "RETURN_SET"@ {
        "Step "@ + dec_str(i) + ": RETURN_SET"@
    } else {
        "Step "@ + dec_str(i) + ": "@ + op
    }
}

/// Renders a proposed op list as numbered human-readable steps.
pub fn interpret_trace(ops: &Vec<String>) -> (r: Vec<String>)
    ensures
        r@.len() == ops@.len(),
        forall|k: int| 0 <= k < r@.len() ==> (#[trigger] r@[k])@ == spec_interpret_line(k, ops@[k]@),
{
    let mut out: Vec<String> = Vec::new();
    let mut i: usize = 0;
    while i < ops.len()
        invariant
            i <= ops@.len(),
            out@.len() == i,
            forall|k: int|
                0 <= k < i ==> (#[trigger] out@[k])@ == spec_interpret_line(k, ops@[k]@),
        decreases ops@.len() - i,
    {
        let op = &ops[i];
        let n = op.as_str().unicode_len();
        let mut line = String::new();
        proof {
            reveal_strlit("Step ");
            reveal_strlit(": LOAD ");
            reveal_strlit("LOAD ");
            reveal_strlit("MASK_BIT bit=2 val=1");
            reveal_strlit(": MASK_BIT (den<=6 := true)");
            reveal_strlit("WITNESS_NEAREST target=");
            reveal_strlit(": WITNESS_NEAREST(target=");
            reveal_strlit(", metric=ABS_DIFF)");
            reveal_strlit("RETURN_SET");
            reveal_strlit(": RETURN_SET");
            reveal_strlit(": ");
        }
        line.append("Step ");
        crate::strnum::append_u64(&mut line, i as u64);
        if crate::exec::has_prefix(op.as_str(), "LOAD ") {
            line.append(": LOAD ");
            let rest = op.as_str().substring_char(5, n);
            proof {
                assert(rest@ =~= op@.skip(5));
            }
            line.append(rest);
        } else if crate::exec::str_eq(op.as_str(), "MASK_BIT bit=2 val=1") {
            line.append(": MASK_BIT (den<=6 := true)");
        } else if crate::exec::has_prefix(op.as_str(), "WITNESS_NEAREST target=") {
            line.append(": WITNESS_NEAREST(target=");
            let rest = op.as_str().substring_char(23, n);
            proof {
                assert(("WITNESS_NEAREST target="@).len() == 23);
                assert(rest@ =~= op@.skip(23));
            }
            line.append(rest);
            line.append(", metric=ABS_DIFF)");
        } else if crate::exec::str_eq(op.as_str(), "RETURN_SET") {
            line.append(": RETURN_SET");
        } else {
            line.append(": ");
            line.append(op.as_str());
        }
        proof {
            assert(line@ =~= spec_interpret_line(i as int, ops@[i as int]@));
        }
        out.push(line);
        i = i + 1;
    }
    out
}

} // verus!

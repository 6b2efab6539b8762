//! One-line source pointer shown under an error message.
use crate::text::{byte_len, lemma_byte_offset_monotonic, str_byte_len};
use vstd::prelude::*;
use vstd::string::*;

verus! {

/// Column that the caret stands under: `pos`, held back to the last byte of
/// the expression.
pub open spec fn caret_column(expression: Seq<char>, pos: nat) -> nat {
    if pos >= byte_len(expression) {
        (byte_len(expression) - 1) as nat
    } else {
        pos
    }
}

/// The pointer text: the expression on one line, and under it a row of dots
/// that ends in a caret at `caret_column`. An empty expression has no pointer.
pub open spec fn snippet_text(expression: Seq<char>, pos: nat) -> Seq<char> {
    if expression.len() == 0 {
        Seq::empty()
    } else {
        "| "@ + expression + "\n| "@ + Seq::new(caret_column(expression, pos), |i: int| '.')
            + seq!['^']
    }
}

/// The source pointer for position `pos` of an expression.
pub fn snippet(expression: String, pos: usize) -> (r: String)
    ensures
        r@ == snippet_text(expression@, pos as nat),
{
    if expression.as_str().is_empty() {
        return String::new();
    }
    let len = str_byte_len(expression.as_str());
    proof {
        lemma_byte_offset_monotonic(expression@, 0, expression@.len() as int);
    }
    let column: usize = if pos >= len {
        len - 1
    } else {
        pos
    };
    let mut out = String::from_str("| ");
    out.append(expression.as_str());
    out.append("\n| ");
    let ghost head = out@;
    let mut i: usize = 0;
    while i < column
        invariant
            i <= column,
            out@ == head + Seq::new(i as nat, |k: int| '.'),
        decreases column - i,
    {
        out.push('.');
        proof {
            assert((head + Seq::new(i as nat, |k: int| '.')).push('.') =~= head + Seq::new(
                (i + 1) as nat,
                |k: int| '.',
            ));
        }
        i += 1;
    }
    out.push('^');
    proof {
        assert(out@ =~= snippet_text(expression@, pos as nat));
    }
    out
}

} // verus!

//! One-dimensional convolution: which part of the full result each mode keeps.
use vstd::prelude::*;

verus! {

/// Which part of the full convolution of two signals to return.
#[derive(Clone, Copy, PartialEq, Eq, Debug)]
pub enum ConvolveMode {
    /// The full result, `n1 + n2 - 1` values.
    Full,
    /// The central part, as long as the first signal.
    Same,
    /// Only the values computed without zero padding.
    Valid,
}

/// The range `[start, end)` of the full convolution (of length `n1 + n2 - 1`)
/// that `mode` keeps; empty when either signal is.
pub open spec fn output_range_spec(n1: int, n2: int, mode: ConvolveMode) -> (int, int) {
    if n1 == 0 || n2 == 0 {
        (0, 0)
    } else {
        match mode {
            ConvolveMode::Full => (0, n1 + n2 - 1),
            ConvolveMode::Same => ((n2 - 1) / 2, (n2 - 1) / 2 + n1),
            ConvolveMode::Valid => if n1 >= n2 { (n2 - 1, n1) } else { (n1 - 1, n2) },
        }
    }
}

impl ConvolveMode {
    /// The range `[start, end)` of the full convolution of signals of lengths
    /// `n1` and `n2` that this mode returns.
    pub fn output_range(self, n1: usize, n2: usize) -> (r: (usize, usize))
        requires
            n1 + n2 <= usize::MAX,
        ensures
            (r.0 as int, r.1 as int) == output_range_spec(n1 as int, n2 as int, self),
            r.0 <= r.1,
            n1 > 0 && n2 > 0 ==> r.1 <= n1 + n2 - 1,
    {
        if n1 == 0 || n2 == 0 {
            return (0, 0);
        }
        match self {
            ConvolveMode::Full => (0, n1 + n2 - 1),
            ConvolveMode::Same => {
                let start = (n2 - 1) / 2;
                (start, start + n1)
            },
            ConvolveMode::Valid => {
                if n1 >= n2 {
                    (n2 - 1, n1)
                } else {
                    (n1 - 1, n2)
                }
            },
        }
    }
}

/// The length of the shorter of two signals.
pub open spec fn shorter(n1: int, n2: int) -> int {
    if n1 <= n2 { n1 } else { n2 }
}

/// The length of the longer of two signals.
pub open spec fn longer(n1: int, n2: int) -> int {
    if n1 <= n2 { n2 } else { n1 }
}

/// Position `q` of the full convolution lies in the range `r`.
pub open spec fn kept(r: (int, int), q: int) -> bool {
    r.0 <= q < r.1
}

/// At position `q` of the full convolution, position `j` of one signal meets
/// a position of the other signal, of length `len`.
pub open spec fn meets(q: int, j: int, len: int) -> bool {
    0 <= q - j < len
}

/// What each mode keeps of the full convolution of signals of lengths `n1`
/// and `n2` (both non-empty), whose `n1 + n2 - 1` values are indexed from 0:
/// - full keeps all of them;
/// - same keeps `n1` of them, centred: it drops as many at the start as at
///   the end, or one more at the end;
/// - valid keeps exactly the positions `q` at which every value of the
///   shorter signal meets a value of the longer one (`0 <= q - j` and
///   `q - j` below the longer length, for each position `j` of the shorter).
pub proof fn lemma_convolve_ranges(n1: int, n2: int)
    requires
        n1 >= 1,
        n2 >= 1,
    ensures
        output_range_spec(n1, n2, ConvolveMode::Full) == (0int, n1 + n2 - 1),
        ({
            let (start, end) = output_range_spec(n1, n2, ConvolveMode::Same);
            &&& end - start == n1
            &&& 0 <= start
            &&& start <= (n1 + n2 - 1) - end <= start + 1
        }),
        forall|q: int|
            #[trigger] kept(output_range_spec(n1, n2, ConvolveMode::Valid), q) <==> (0 <= q && forall|j: int|
                0 <= j < shorter(n1, n2) ==> #[trigger] meets(q, j, longer(n1, n2))),
{
    let (vs, ve) = output_range_spec(n1, n2, ConvolveMode::Valid);
    let short = shorter(n1, n2);
    let long = longer(n1, n2);
    assert(vs == short - 1 && ve == long);
    assert forall|q: int|
        #[trigger] kept((vs, ve), q) <==> (0 <= q && forall|j: int| 0 <= j < short ==> #[trigger] meets(q, j, long)) by {
        if 0 <= q && forall|j: int| 0 <= j < short ==> #[trigger] meets(q, j, long) {
            assert(meets(q, short - 1, long));
            assert(meets(q, 0, long));
        }
    }
}

} // verus!


//! Search configuration, as handed over by the command line.

use vstd::prelude::*;

verus! {

/// The knobs of the search: the text to produce, the program-length limit,
/// and the bounds on the initialization segments, the tape and the solver.
#[derive(Debug, Clone)]
pub struct Options {
    /// The text to produce, still escaped.
    pub text: String,
    /// The maximum program length to search for; when absent it is derived
    /// from the goal and the rolling limit is forced on.
    pub limit: Option<i32>,
    /// Upper bound on the initialization length; absent means unbounded.
    pub max_init: Option<i32>,
    /// Lower bound on the initialization length.
    pub min_init: i32,
    /// Largest tape span a candidate may use.
    pub max_tape: i32,
    /// Smallest tape span a candidate may use.
    pub min_tape: i32,
    /// Cost cap for a single solver node.
    pub max_node_cost: i32,
    /// Accepted but never consulted; kept for compatibility.
    pub max_loops: i32,
    /// Upper bound on the `s` segment length; absent means unbounded.
    pub max_slen: Option<i32>,
    /// Lower bound on the `s` segment length.
    pub min_slen: i32,
    /// Upper bound on the `c` segment length; absent means unbounded.
    pub max_clen: Option<i32>,
    /// Lower bound on the `c` segment length.
    pub min_clen: i32,
    /// Tighten the limit whenever a shorter program is found.
    pub rolling_limit: bool,
    /// Forbid two output steps from sharing a tape cell.
    pub unique_cells: bool,
    /// Report the full program instead of its initialization segment.
    pub full_program: bool,
}

impl Options {
    /// The ranges under which every cost and index computation of the
    /// search stays inside `i32`.
    pub open spec fn valid(self) -> bool {
        &&& self.text@.len() <= 100_000
        &&& (self.limit matches Some(l) ==> -0x0100_0000 <= l <= 0x0100_0000)
        &&& (self.max_init matches Some(m) ==> -0x0100_0000 <= m <= 0x0100_0000)
        &&& -0x0100_0000 <= self.min_init <= 0x0100_0000
        &&& 0 <= self.max_tape <= 0x0100_0000
        &&& -0x0100_0000 <= self.min_tape <= 0x0100_0000
        &&& -10_000 <= self.max_node_cost <= 10_000
        &&& (self.max_slen matches Some(m) ==> -0x0100_0000 <= m <= 0x0100_0000)
        &&& -0x0100_0000 <= self.min_slen <= 0x0100_0000
        &&& (self.max_clen matches Some(m) ==> -0x0100_0000 <= m <= 0x0100_0000)
        &&& -0x0100_0000 <= self.min_clen <= 0x0100_0000
    }

    /// Options for a target text with every other knob at its default.
    pub fn new(text: String) -> (r: Options)
        ensures
            r.text == text,
            r.limit is None,
            r.max_init is None,
            r.min_init == 14,
            r.max_tape == 1250,
            r.min_tape == 1,
            r.max_node_cost == 20,
            r.max_loops == 30_000,
            r.max_slen is None,
            r.min_slen == 1,
            r.max_clen is None,
            r.min_clen == 1,
            !r.rolling_limit,
            !r.unique_cells,
            !r.full_program,
            text@.len() <= 100_000 ==> r.valid(),
    {
        Options {
            text,
            limit: None,
            max_init: None,
            min_init: 14,
            max_tape: 1250,
            min_tape: 1,
            max_node_cost: 20,
            max_loops: 30_000,
            max_slen: None,
            min_slen: 1,
            max_clen: None,
            min_clen: 1,
            rolling_limit: false,
            unique_cells: false,
            full_program: false,
        }
    }
}

} // verus!

//! Candidate generation: enumerates the initialization parameter tuples,
//! simulates each on a byte tape, and hands promising snapshots to the
//! solver.

use crate::node::Node;
use crate::options::Options;
use crate::path::{lemma_seq_cost_nonneg, lemma_seq_cost_prefix_bounds, seq_cost, Path};
use crate::solver::{distinct_pointers, min_cost_spec, no_roll, Solver};
use crate::util::{
    add_byte, iso_spec, lemma_iso_len, lemma_unescape_len, negate_byte, to_iso_8859_1_bytes,
    unescape_regex_like, unescape_spec, PrepError,
};
use vstd::prelude::*;

verus! {

/// The multiplicative inverse of `i` modulo 256 for odd `i` up to 39, and
/// zero everywhere else.
pub open spec fn modinv256_spec(i: int) -> int {
    if i == 1 {
        1
    } else if i == 3 {
        171
    } else if i == 5 {
        205
    } else if i == 7 {
        183
    } else if i == 9 {
        57
    } else if i == 11 {
        163
    } else if i == 13 {
        197
    } else if i == 15 {
        239
    } else if i == 17 {
        241
    } else if i == 19 {
        27
    } else if i == 21 {
        61
    } else if i == 23 {
        167
    } else if i == 25 {
        41
    } else if i == 27 {
        19
    } else if i == 29 {
        53
    } else if i == 31 {
        223
    } else if i == 33 {
        225
    } else if i == 35 {
        139
    } else if i == 37 {
        173
    } else if i == 39 {
        151
    } else {
        0
    }
}

/// Looks up the table of inverses modulo 256 for odd residues up to 39.
pub fn modinv256(i: usize) -> (r: i32)
    requires
        i < 40,
    ensures
        r == modinv256_spec(i as int),
        0 <= r <= 255,
{
    if i == 1 {
        1
    } else if i == 3 {
        171
    } else if i == 5 {
        205
    } else if i == 7 {
        183
    } else if i == 9 {
        57
    } else if i == 11 {
        163
    } else if i == 13 {
        197
    } else if i == 15 {
        239
    } else if i == 17 {
        241
    } else if i == 19 {
        27
    } else if i == 21 {
        61
    } else if i == 23 {
        167
    } else if i == 25 {
        41
    } else if i == 27 {
        19
    } else if i == 29 {
        53
    } else if i == 31 {
        223
    } else if i == 33 {
        225
    } else if i == 35 {
        139
    } else if i == 37 {
        173
    } else if i == 39 {
        151
    } else {
        0
    }
}

/// Every odd `q` up to 39 really gets its multiplicative inverse modulo 256.
pub proof fn lemma_modinv256_inverse()
    ensures
        forall|q: int|
            0 <= q < 40 && q % 2 == 1 ==> #[trigger] ((q * modinv256_spec(q)) % 256) == 1,
{
    assert forall|q: int| 0 <= q < 40 && q % 2 == 1 implies #[trigger] ((q * modinv256_spec(q))
        % 256) == 1 by {
        if q == 1 {
            assert((1 * 1) % 256 == 1);
        } else if q == 3 {
            assert((3 * 171) % 256 == 1);
        } else if q == 5 {
            assert((5 * 205) % 256 == 1);
        } else if q == 7 {
            assert((7 * 183) % 256 == 1);
        } else if q == 9 {
            assert((9 * 57) % 256 == 1);
        } else if q == 11 {
            assert((11 * 163) % 256 == 1);
        } else if q == 13 {
            assert((13 * 197) % 256 == 1);
        } else if q == 15 {
            assert((15 * 239) % 256 == 1);
        } else if q == 17 {
            assert((17 * 241) % 256 == 1);
        } else if q == 19 {
            assert((19 * 27) % 256 == 1);
        } else if q == 21 {
            assert((21 * 61) % 256 == 1);
        } else if q == 23 {
            assert((23 * 167) % 256 == 1);
        } else if q == 25 {
            assert((25 * 41) % 256 == 1);
        } else if q == 27 {
            assert((27 * 19) % 256 == 1);
        } else if q == 29 {
            assert((29 * 53) % 256 == 1);
        } else if q == 31 {
            assert((31 * 223) % 256 == 1);
        } else if q == 33 {
            assert((33 * 225) % 256 == 1);
        } else if q == 35 {
            assert((35 * 139) % 256 == 1);
        } else if q == 37 {
            assert((37 * 173) % 256 == 1);
        } else {
            assert(q == 39);
            assert((39 * 151) % 256 == 1);
        }
    }
}

/// Absolute value.
pub open spec fn iabs(v: int) -> int {
    if v < 0 {
        -v
    } else {
        v
    }
}

/// Program-length cost of an `s` segment: each term costs its magnitude
/// plus one delimiter.
pub open spec fn s_cost(s: Seq<i32>) -> int
    decreases s.len(),
{
    if s.len() == 0 {
        0
    } else {
        s_cost(s.drop_last()) + iabs(s.last() as int) + 1
    }
}

pub proof fn lemma_s_cost_elem_bounds(s: Seq<i32>, k: int)
    requires
        0 <= k < s.len(),
    ensures
        iabs(s[k] as int) + 1 <= s_cost(s),
        s.len() <= s_cost(s),
        s_cost(s) >= 0,
    decreases s.len(),
{
    lemma_s_cost_len(s);
    if k == s.len() - 1 {
        lemma_s_cost_len(s.drop_last());
        assert(s[k] == s.last());
    } else {
        lemma_s_cost_elem_bounds(s.drop_last(), k);
        assert(s.drop_last()[k] == s[k]);
    }
}

pub proof fn lemma_s_cost_len(s: Seq<i32>)
    ensures
        s.len() <= s_cost(s),
        s_cost(s) >= 0,
    decreases s.len(),
{
    if s.len() > 0 {
        lemma_s_cost_len(s.drop_last());
    }
}

/// Program-length cost of a `c` segment: the first term costs its magnitude
/// plus one, each later term its magnitude plus two.
pub open spec fn c_cost_from(s: Seq<i32>, first: bool) -> int
    decreases s.len(),
{
    if s.len() == 0 {
        0
    } else {
        iabs(s[0] as int) + (if first {
            1int
        } else {
            2int
        }) + c_cost_from(s.drop_first(), false)
    }
}

pub proof fn lemma_c_cost_push(s: Seq<i32>, x: i32, first: bool)
    ensures
        c_cost_from(s.push(x), first) == c_cost_from(s, first) + iabs(x as int) + (if s.len() == 0 {
            if first {
                1int
            } else {
                2int
            }
        } else {
            2int
        }),
    decreases s.len(),
{
    if s.len() == 0 {
        assert(s.push(x)[0] == x);
        assert(s.push(x).drop_first() =~= Seq::<i32>::empty());
        assert(c_cost_from(Seq::<i32>::empty(), false) == 0);
        assert(c_cost_from(s, first) == 0);
    } else {
        assert(s.push(x).drop_first() =~= s.drop_first().push(x));
        assert(s.push(x)[0] == s[0]);
        lemma_c_cost_push(s.drop_first(), x, false);
        assert(c_cost_from(s.push(x), first) == iabs(s[0] as int) + (if first {
            1int
        } else {
            2int
        }) + c_cost_from(s.drop_first().push(x), false));
        assert(c_cost_from(s, first) == iabs(s[0] as int) + (if first {
            1int
        } else {
            2int
        }) + c_cost_from(s.drop_first(), false));
    }
}

pub proof fn lemma_c_cost_len(s: Seq<i32>, first: bool)
    ensures
        s.len() <= c_cost_from(s, first),
        c_cost_from(s, first) >= 0,
    decreases s.len(),
{
    if s.len() > 0 {
        lemma_c_cost_len(s.drop_first(), false);
    }
}

/// The views of a vector of segments.
pub open spec fn views(v: Seq<Vec<i32>>) -> Seq<Seq<i32>> {
    v.map_values(|x: Vec<i32>| x@)
}

/// Every `s` segment the search enumerates for the remaining cost, each
/// one extending the given prefix; the terms are tried in increasing
/// order, and a spend of exactly one below the remainder is excluded.
pub open spec fn s_lists(len: int, first: bool, cur: Seq<i32>) -> Seq<Seq<i32>>
    decreases len + 0x0100_0002, 1int, 0int,
{
    if len < 1 {
        seq![cur]
    } else {
        s_lists_from(len, first, cur, -len)
    }
}

pub open spec fn s_lists_from(len: int, first: bool, cur: Seq<i32>, i: int) -> Seq<Seq<i32>>
    decreases len + 0x0100_0002, 0int, len - i + 1,
{
    if len < 1 || i > len || i < -len || len > 0x0100_0000 {
        Seq::empty()
    } else {
        let rest = s_lists_from(len, first, cur, i + 1);
        if (first && i == 0) || (iabs(i) == len - 1) {
            rest
        } else {
            s_lists(len - iabs(i) - 1, false, cur.push(i as i32)) + rest
        }
    }
}

/// Every `c` segment the search enumerates for the remaining cost: as for
/// `s`, but with the heavier per-term cost after the first term and the
/// zero-term rule.
pub open spec fn c_lists(len: int, first: bool, cur: Seq<i32>) -> Seq<Seq<i32>>
    decreases len + 0x0100_0002, 1int, 0int,
{
    if len < 1 {
        seq![cur]
    } else {
        c_lists_from(len, first, cur, (if first { 1int } else { 2int }) - len)
    }
}

pub open spec fn c_lists_from(len: int, first: bool, cur: Seq<i32>, i: int) -> Seq<Seq<i32>>
    decreases len + 0x0100_0002, 0int, len - i + 1,
{
    let j: int = if first { 1 } else { 2 };
    if len < 1 || i > len - j || i < j - len || len > 0x0100_0000 {
        Seq::empty()
    } else {
        let rest = c_lists_from(len, first, cur, i + 1);
        if i == 0 && len < 3 && !first {
            rest
        } else {
            c_lists(len - iabs(i) - j, false, cur.push(i as i32)) + rest
        }
    }
}

/// Copies a vector of integers.
fn copy_i32_vec(src: &Vec<i32>) -> (r: Vec<i32>)
    ensures
        r@ == src@,
{
    let mut r: Vec<i32> = Vec::new();
    let mut i: usize = 0;
    while i < src.len()
        invariant
            0 <= i <= src@.len(),
            r@ == src@.take(i as int),
        decreases src@.len() - i,
    {
        r.push(src[i]);
        proof {
            assert(r@ =~= src@.take(i + 1));
        }
        i = i + 1;
    }
    proof {
        assert(src@.take(src@.len() as int) =~= src@);
    }
    r
}

/// Emits every `s` segment reachable within the given cost, leaving the
/// prefix in `current` untouched and appending the results to `out`.
#[verifier::loop_isolation(false)]
fn s_list_dfs(len: i32, first: bool, current: &mut Vec<i32>, out: &mut Vec<Vec<i32>>)
    requires
        -0x0100_0000 <= len <= 0x0100_0000,
        first <==> old(current)@.len() == 0,
        old(current)@.len() > 0 ==> old(current)@[0] != 0,
    ensures
        final(current)@ == old(current)@,
        views(final(out)@) == views(old(out)@) + s_lists(len as int, first, old(current)@),
        final(out)@.len() >= old(out)@.len(),
        forall|i: int| 0 <= i < old(out)@.len() ==> final(out)@[i] == old(out)@[i],
        forall|i: int|
            old(out)@.len() <= i < final(out)@.len() ==> {
                let e = (#[trigger] final(out)@[i])@;
                &&& s_cost(e) == s_cost(old(current)@) + (if len >= 1 {
                    len + 1int
                } else {
                    0int
                })
                &&& e.len() > 0 ==> e[0] != 0 || (old(current)@.len() > 0 && e[0] == old(
                    current,
                )@[0])
                &&& (old(current)@.len() == 0 && len >= 1 ==> e.len() > 0 && e[0] != 0)
            },
    decreases len + 0x0100_0001, 1int,
{
    if len < 1 {
        let copy = copy_i32_vec(current);
        out.push(copy);
        proof {
            assert(views(out@) =~= views(old(out)@).push(current@));
            assert(views(old(out)@).push(current@) =~= views(old(out)@) + seq![current@]);
        }
        return ;
    }
    let mut i: i32 = -len;
    while i <= len
        invariant
            -len <= i <= len + 1,
            current@ == old(current)@,
            views(old(out)@) + s_lists_from(len as int, first, old(current)@, -len as int)
                == views(out@) + s_lists_from(len as int, first, old(current)@, i as int),
            out@.len() >= old(out)@.len(),
            forall|m: int| 0 <= m < old(out)@.len() ==> out@[m] == old(out)@[m],
            forall|m: int|
                old(out)@.len() <= m < out@.len() ==> {
                    let e = (#[trigger] out@[m])@;
                    &&& s_cost(e) == s_cost(old(current)@) + len + 1
                    &&& e.len() > 0 ==> e[0] != 0 || (old(current)@.len() > 0 && e[0] == old(
                        current,
                    )@[0])
                    &&& (old(current)@.len() == 0 ==> e.len() > 0 && e[0] != 0)
                },
        decreases len - i + 1,
    {
        let ia = if i < 0 {
            -i
        } else {
            i
        };
        if !((first && i == 0) || ia == len - 1) {
            let ghost cur_before = current@;
            let ghost out_before = out@;
            current.push(i);
            proof {
                assert(current@.drop_last() =~= cur_before);
                assert(s_cost(current@) == s_cost(cur_before) + iabs(i as int) + 1);
            }
            s_list_dfs(len - ia - 1, false, current, out);
            current.pop();
            proof {
                assert(current@ =~= cur_before);
                let emitted = s_lists((len - ia - 1) as int, false, cur_before.push(i));
                assert(views(out_before) + emitted =~= views(out@));
                assert(s_lists_from(len as int, first, cur_before, i as int) == emitted
                    + s_lists_from(len as int, first, cur_before, i + 1));
                assert(views(out_before) + (emitted + s_lists_from(
                    len as int,
                    first,
                    cur_before,
                    i + 1,
                )) =~= (views(out_before) + emitted) + s_lists_from(
                    len as int,
                    first,
                    cur_before,
                    i + 1,
                ));
            }
        } else {
            proof {
                assert(s_lists_from(len as int, first, old(current)@, i as int)
                    == s_lists_from(len as int, first, old(current)@, i + 1));
            }
        }
        i = i + 1;
    }
    proof {
        assert(s_lists_from(len as int, first, old(current)@, (len + 1) as int)
            =~= Seq::<Seq<i32>>::empty());
        assert(views(out@) + Seq::<Seq<i32>>::empty() =~= views(out@));
        assert(s_lists(len as int, first, old(current)@) == s_lists_from(
            len as int,
            first,
            old(current)@,
            -len as int,
        ));
    }
}

/// Generates every `s` segment of the given cost: the total of magnitude
/// plus one over the terms is `len + 1`, and the first term is nonzero.
pub fn s_list_gen(len: i32) -> (r: Vec<Vec<i32>>)
    requires
        -0x0100_0000 <= len <= 0x0100_0000,
    ensures
        views(r@) == s_lists(len as int, true, Seq::empty()),
        forall|i: int|
            0 <= i < r@.len() ==> {
                let e = (#[trigger] r@[i])@;
                len >= 1 ==> {
                    &&& s_cost(e) == len + 1
                    &&& e.len() > 0
                    &&& e[0] != 0
                }
            },
{
    let mut result: Vec<Vec<i32>> = Vec::new();
    let mut current: Vec<i32> = Vec::new();
    s_list_dfs(len, true, &mut current, &mut result);
    proof {
        assert(views(Seq::<Vec<i32>>::empty()) =~= Seq::<Seq<i32>>::empty());
        assert(Seq::<Seq<i32>>::empty() + s_lists(len as int, true, Seq::empty()) =~= s_lists(
            len as int,
            true,
            Seq::empty(),
        ));
    }
    result
}

/// Emits every `c` segment reachable within the given cost.
#[verifier::loop_isolation(false)]
fn c_list_dfs(len: i32, first: bool, current: &mut Vec<i32>, out: &mut Vec<Vec<i32>>)
    requires
        -0x0100_0000 <= len <= 0x0100_0000,
        first <==> old(current)@.len() == 0,
    ensures
        final(current)@ == old(current)@,
        views(final(out)@) == views(old(out)@) + c_lists(len as int, first, old(current)@),
        final(out)@.len() >= old(out)@.len(),
        forall|i: int| 0 <= i < old(out)@.len() ==> final(out)@[i] == old(out)@[i],
        forall|i: int|
            old(out)@.len() <= i < final(out)@.len() ==> {
                let e = (#[trigger] final(out)@[i])@;
                c_cost_from(e, old(current)@.len() == 0) == c_cost_from(
                    old(current)@,
                    old(current)@.len() == 0,
                ) + (if len >= 1 {
                    len as int
                } else {
                    0int
                }) && e.len() >= old(current)@.len()
            },
    decreases len + 0x0100_0001, 1int,
{
    if len < 1 {
        let copy = copy_i32_vec(current);
        out.push(copy);
        proof {
            assert(views(out@) =~= views(old(out)@).push(current@));
            assert(views(old(out)@).push(current@) =~= views(old(out)@) + seq![current@]);
        }
        return ;
    }
    let j: i32 = if first {
        1
    } else {
        2
    };
    let mut i: i32 = j - len;
    while i <= len - j
        invariant
            j - len <= i,
            -0x0100_0001 <= i <= 0x0100_0001,
            j == (if old(current)@.len() == 0 {
                1int
            } else {
                2int
            }),
            current@ == old(current)@,
            views(old(out)@) + c_lists_from(
                len as int,
                first,
                old(current)@,
                (j - len) as int,
            ) == views(out@) + c_lists_from(len as int, first, old(current)@, i as int),
            out@.len() >= old(out)@.len(),
            forall|m: int| 0 <= m < old(out)@.len() ==> out@[m] == old(out)@[m],
            forall|m: int|
                old(out)@.len() <= m < out@.len() ==> {
                    let e = (#[trigger] out@[m])@;
                    c_cost_from(e, old(current)@.len() == 0) == c_cost_from(
                        old(current)@,
                        old(current)@.len() == 0,
                    ) + len && e.len() >= old(current)@.len()
                },
        decreases len - j - i + 1,
    {
        let ia = if i < 0 {
            -i
        } else {
            i
        };
        if !(i == 0 && len < 3 && !first) {
            let ghost cur_before = current@;
            let ghost out_before = out@;
            current.push(i);
            proof {
                lemma_c_cost_push(cur_before, i, cur_before.len() == 0);
            }
            c_list_dfs(len - ia - j, false, current, out);
            current.pop();
            proof {
                assert(current@ =~= cur_before);
                let emitted = c_lists((len - ia - j) as int, false, cur_before.push(i));
                assert(views(out_before) + emitted =~= views(out@));
                assert(c_lists_from(len as int, first, cur_before, i as int) == emitted
                    + c_lists_from(len as int, first, cur_before, i + 1));
                assert(views(out_before) + (emitted + c_lists_from(
                    len as int,
                    first,
                    cur_before,
                    i + 1,
                )) =~= (views(out_before) + emitted) + c_lists_from(
                    len as int,
                    first,
                    cur_before,
                    i + 1,
                ));
            }
        } else {
            proof {
                assert(c_lists_from(len as int, first, old(current)@, i as int)
                    == c_lists_from(len as int, first, old(current)@, i + 1));
            }
        }
        i = i + 1;
    }
    proof {
        assert(c_lists_from(len as int, first, old(current)@, (len - j + 1) as int)
            =~= Seq::<Seq<i32>>::empty());
        assert(views(out@) + Seq::<Seq<i32>>::empty() =~= views(out@));
        assert(c_lists(len as int, first, old(current)@) == c_lists_from(
            len as int,
            first,
            old(current)@,
            (j - len) as int,
        ));
    }
}

/// Generates every `c` segment of the given cost: magnitude plus one for
/// the first term and magnitude plus two thereafter total exactly `len`.
pub fn c_list_gen(len: i32) -> (r: Vec<Vec<i32>>)
    requires
        -0x0100_0000 <= len <= 0x0100_0000,
    ensures
        views(r@) == c_lists(len as int, true, Seq::empty()),
        forall|i: int|
            0 <= i < r@.len() ==> (len >= 1 ==> c_cost_from((#[trigger] r@[i])@, true) == len),
{
    let mut result: Vec<Vec<i32>> = Vec::new();
    let mut current: Vec<i32> = Vec::new();
    c_list_dfs(len, true, &mut current, &mut result);
    proof {
        assert(views(Seq::<Vec<i32>>::empty()) =~= Seq::<Seq<i32>>::empty());
        assert(Seq::<Seq<i32>>::empty() + c_lists(len as int, true, Seq::empty()) =~= c_lists(
            len as int,
            true,
            Seq::empty(),
        ));
    }
    result
}

/// Generates every `k` pair whose magnitudes total the given cost: the
/// boundary pairs around, for each inner first term, the positive and then
/// the negative second term.
#[verifier::loop_isolation(false)]
#[verifier::rlimit(60)]
#[verifier::spinoff_prover]
pub fn k_list_gen(len: i32) -> (r: Vec<[i32; 2]>)
    requires
        -0x0100_0000 <= len <= 0x0100_0000,
    ensures
        forall|i: int|
            0 <= i < r@.len() ==> iabs((#[trigger] r@[i])@[0] as int) + iabs(r@[i]@[1] as int)
                == iabs(len as int),
        r@.len() == (if len == 0 {
            1int
        } else if len >= 1 {
            4 * len
        } else {
            2int
        }),
        len == 0 ==> r@[0]@[0] == 0 && r@[0]@[1] == 0,
        len != 0 ==> r@[0]@[0] == -len && r@[0]@[1] == 0,
        len != 0 ==> r@[r@.len() - 1]@[0] == len && r@[r@.len() - 1]@[1] == 0,
        forall|q: int|
            0 <= q < r@.len() - 2 ==> ({
                let iv = 1 - len + q / 2;
                let k1 = len - iabs(iv);
                (#[trigger] r@[q + 1])@[0] == iv && r@[q + 1]@[1] == (if q % 2 == 0 {
                    k1
                } else {
                    -k1
                })
            }),
{
    if len == 0 {
        let mut result: Vec<[i32; 2]> = Vec::new();
        result.push([0, 0]);
        return result;
    }
    let mut result: Vec<[i32; 2]> = Vec::new();
    result.push([-len, 0]);
    let mut i: i32 = 1 - len;
    while i < len
        invariant
            1 - len <= i,
            i <= len || i == 1 - len,
            -0x0100_0001 <= i <= 0x0100_0001,
            result@.len() == 1 + 2 * (i - (1 - len)),
            result@[0]@[0] == -len && result@[0]@[1] == 0,
            forall|m: int|
                0 <= m < result@.len() ==> iabs((#[trigger] result@[m])@[0] as int) + iabs(
                    result@[m]@[1] as int,
                ) == iabs(len as int),
            forall|q: int|
                0 <= q < result@.len() - 1 ==> ({
                    let iv = 1 - len + q / 2;
                    let k1 = len - iabs(iv);
                    (#[trigger] result@[q + 1])@[0] == iv && result@[q + 1]@[1] == (if q % 2
                        == 0 {
                        k1
                    } else {
                        -k1
                    })
                }),
        decreases len - i,
    {
        let ia = if i < 0 {
            -i
        } else {
            i
        };
        let k1 = len - ia;
        result.push([i, k1]);
        result.push([i, -k1]);
        i = i + 1;
    }
    result.push([len, 0]);
    result
}

/// Generates every `j` pair of the given cost: `(len - i, i)` for `i` from
/// one below `len`, so the divider is always at least one.
#[verifier::loop_isolation(false)]
pub fn j_list_gen(len: i32) -> (r: Vec<[i32; 2]>)
    requires
        -0x0100_0000 <= len <= 0x0100_0000,
    ensures
        r@.len() == (if len >= 1 {
            len - 1
        } else {
            0int
        }),
        forall|i: int|
            0 <= i < r@.len() ==> (#[trigger] r@[i])@[0] == len - (i + 1) && r@[i]@[1] == i + 1,
{
    let mut result: Vec<[i32; 2]> = Vec::new();
    let mut i: i32 = 1;
    while i < len
        invariant
            1 <= i <= len || (len < 1 && i == 1),
            result@.len() == i - 1,
            forall|m: int|
                0 <= m < result@.len() ==> (#[trigger] result@[m])@[0] == len - (m + 1)
                    && result@[m]@[1] == m + 1,
        decreases len - i,
    {
        result.push([len - i, i]);
        i = i + 1;
    }
    result
}

/// `n` copies of one character.
pub open spec fn repeat_char(ch: char, n: int) -> Seq<char>
    decreases n,
{
    if n <= 0 {
        Seq::empty()
    } else {
        repeat_char(ch, n - 1).push(ch)
    }
}

/// The sign character of a term: `-` for negative values, `+` otherwise.
pub open spec fn sign_char(v: int) -> char {
    if v < 0 {
        '-'
    } else {
        '+'
    }
}

/// A signed term as program text: its magnitude in copies of its sign.
pub open spec fn term_chars(v: int) -> Seq<char> {
    repeat_char(sign_char(v), iabs(v))
}

/// The seeding prefix: the terms of `s` from last to first, the later ones
/// closed by `<`, the first by the opening `[` of the outer loop.
pub open spec fn s_part(s: Seq<i32>) -> Seq<char>
    decreases s.len(),
{
    if s.len() == 0 {
        Seq::empty()
    } else {
        term_chars(s.last() as int) + seq![if s.len() == 1 {
            '['
        } else {
            '<'
        }] + s_part(s.drop_last())
    }
}

/// The coefficient block: each term of `c` preceded by one `>`.
pub open spec fn c_part(c: Seq<i32>) -> Seq<char>
    decreases c.len(),
{
    if c.len() == 0 {
        Seq::empty()
    } else {
        seq!['>'] + term_chars(c[0] as int) + c_part(c.drop_first())
    }
}

/// The whole initialization segment:
/// `{..s1}<{s0}[{k0}[<{j0}>{-j1}>{c0}>{c1}..<..<]{h}>{k1}]`.
pub open spec fn bf_init_spec(
    s: Seq<i32>,
    c: Seq<i32>,
    k0: int,
    k1: int,
    j0: int,
    j1: int,
    h: int,
) -> Seq<char> {
    s_part(s) + term_chars(k0) + seq!['[', '<'] + term_chars(j0) + seq!['>'] + repeat_char(
        '-',
        iabs(j1),
    ) + c_part(c) + repeat_char('<', c.len() as int) + seq![']'] + term_chars(h) + seq!['>']
        + term_chars(k1) + seq![']']
}

/// Builds an all-zero tape of the given length.
fn zero_tape(n: usize) -> (r: Vec<u8>)
    ensures
        r@.len() == n,
        forall|i: int| 0 <= i < n ==> r@[i] == 0,
{
    let mut r: Vec<u8> = Vec::new();
    let mut i: usize = 0;
    while i < n
        invariant
            0 <= i <= n,
            r@.len() == i,
            forall|m: int| 0 <= m < i ==> r@[m] == 0,
        decreases n - i,
    {
        r.push(0);
        i = i + 1;
    }
    r
}

/// Copies a byte vector.
fn copy_u8_vec(src: &Vec<u8>) -> (r: Vec<u8>)
    ensures
        r@ == src@,
{
    let mut r: Vec<u8> = Vec::new();
    let mut i: usize = 0;
    while i < src.len()
        invariant
            0 <= i <= src@.len(),
            r@ == src@.take(i as int),
        decreases src@.len() - i,
    {
        r.push(src[i]);
        proof {
            assert(r@ =~= src@.take(i + 1));
        }
        i = i + 1;
    }
    proof {
        assert(src@.take(src@.len() as int) =~= src@);
    }
    r
}

/// Byte distance from zero through the goal, term by term.
pub open spec fn diff_sum_from(goal: Seq<u8>, i: int, prev: u8) -> int
    decreases goal.len() - i,
{
    if i < 0 || i >= goal.len() {
        0
    } else {
        crate::util::abs_diff_spec(goal[i], prev) + diff_sum_from(goal, i + 1, goal[i])
    }
}

/// The search limit used when none is given: a third of the byte distance
/// walked by the goal, plus one output command per byte, plus twenty.
pub open spec fn auto_limit(goal: Seq<u8>) -> int {
    diff_sum_from(goal, 0, 0) / 3 + goal.len() + 20
}

/// Appends `count` copies of `ch` to the buffer.
#[verifier::loop_isolation(false)]
fn append_repeated(sb: &mut String, ch: char, count: i32)
    ensures
        final(sb)@ == old(sb)@ + repeat_char(ch, count as int),
{
    let mut i: i32 = 0;
    if count <= 0 {
        proof {
            assert(old(sb)@ + repeat_char(ch, count as int) =~= old(sb)@);
        }
        return ;
    }
    while i < count
        invariant
            0 <= i <= count,
            sb@ == old(sb)@ + repeat_char(ch, i as int),
        decreases count - i,
    {
        crate::util::string_push(sb, ch);
        proof {
            assert(sb@ =~= old(sb)@ + repeat_char(ch, i + 1));
        }
        i = i + 1;
    }
}

/// Converts initialization parameters into the program prefix, following
/// the grammar `{..s1}<{s0}[{k0}[<{j0}>{-j1}>{c0}>{c1}..<..<]{h}>{k1}]`.
#[verifier::loop_isolation(false)]
#[verifier::rlimit(60)]
pub fn to_bf_string(s: &Vec<i32>, c: &Vec<i32>, k: &[i32; 2], j: &[i32; 2], h: i32) -> (r:
    String)
    requires
        forall|i: int| 0 <= i < s@.len() ==> -0x0100_0000 <= #[trigger] s@[i] <= 0x0100_0000,
        forall|i: int| 0 <= i < c@.len() ==> -0x0100_0000 <= #[trigger] c@[i] <= 0x0100_0000,
        c@.len() <= 0x0100_0000,
        -0x0100_0000 <= k@[0] <= 0x0100_0000,
        -0x0100_0000 <= k@[1] <= 0x0100_0000,
        -0x0100_0000 <= j@[0] <= 0x0100_0000,
        -0x0100_0000 <= j@[1] <= 0x0100_0000,
        -0x0100_0000 <= h <= 0x0100_0000,
    ensures
        r@ == bf_init_spec(s@, c@, k@[0] as int, k@[1] as int, j@[0] as int, j@[1] as int, h as int),
{
    let mut sb = String::new();

    proof {
        assert(s@.take(s@.len() as int) =~= s@);
        assert(sb@ + s_part(s@) =~= s_part(s@));
    }
    let mut i: usize = s.len();
    while i > 0
        invariant
            0 <= i <= s@.len(),
            s_part(s@) == sb@ + s_part(s@.take(i as int)),
        decreases i,
    {
        let term = s[i - 1];
        let sign: char = if term < 0 {
            '-'
        } else {
            '+'
        };
        let mag: i32 = if term < 0 {
            -term
        } else {
            term
        };
        let ghost before = sb@;
        append_repeated(&mut sb, sign, mag);
        crate::util::string_push(&mut sb, if i == 1 {
            '['
        } else {
            '<'
        });
        proof {
            assert(s@.take(i as int).drop_last() =~= s@.take(i - 1));
            assert(s@.take(i as int).last() == s@[i - 1]);
            assert(sb@ =~= before + (term_chars(s@[i - 1] as int) + seq![if i == 1 {
                '['
            } else {
                '<'
            }]));
            assert(s_part(s@) =~= sb@ + s_part(s@.take(i - 1)));
        }
        i = i - 1;
    }
    proof {
        assert(s@.take(0) =~= Seq::<i32>::empty());
        assert(s_part(s@) =~= sb@);
    }
    let ghost after_s = sb@;

    let k0 = k[0];
    append_repeated(&mut sb, if k0 < 0 { '-' } else { '+' }, if k0 < 0 { -k0 } else { k0 });
    crate::util::string_push(&mut sb, '[');
    crate::util::string_push(&mut sb, '<');
    let j0 = j[0];
    append_repeated(&mut sb, if j0 < 0 { '-' } else { '+' }, if j0 < 0 { -j0 } else { j0 });
    crate::util::string_push(&mut sb, '>');
    let j1 = j[1];
    append_repeated(&mut sb, '-', if j1 < 0 { -j1 } else { j1 });
    let ghost after_head = sb@;
    proof {
        assert(after_head =~= after_s + term_chars(k@[0] as int) + seq!['[', '<'] + term_chars(
            j@[0] as int,
        ) + seq!['>'] + repeat_char('-', iabs(j@[1] as int)));
    }

    proof {
        assert(c@.skip(0) =~= c@);
        assert(after_head + c_part(c@) =~= sb@ + c_part(c@));
    }
    let mut m: usize = 0;
    while m < c.len()
        invariant
            0 <= m <= c@.len(),
            after_head + c_part(c@) == sb@ + c_part(c@.skip(m as int)),
        decreases c@.len() - m,
    {
        let ghost before = sb@;
        crate::util::string_push(&mut sb, '>');
        let term = c[m];
        append_repeated(&mut sb, if term < 0 { '-' } else { '+' }, if term < 0 { -term } else { term });
        proof {
            assert(c@.skip(m as int).drop_first() =~= c@.skip(m + 1));
            assert(c@.skip(m as int)[0] == c@[m as int]);
            assert(sb@ =~= before + (seq!['>'] + term_chars(c@[m as int] as int)));
            assert(after_head + c_part(c@) =~= sb@ + c_part(c@.skip(m + 1)));
        }
        m = m + 1;
    }
    proof {
        assert(c@.skip(c@.len() as int) =~= Seq::<i32>::empty());
        assert(sb@ =~= after_head + c_part(c@));
    }

    append_repeated(&mut sb, '<', c.len() as i32);
    crate::util::string_push(&mut sb, ']');
    append_repeated(&mut sb, if h < 0 { '-' } else { '+' }, if h < 0 { -h } else { h });
    crate::util::string_push(&mut sb, '>');
    let k1 = k[1];
    append_repeated(&mut sb, if k1 < 0 { '-' } else { '+' }, if k1 < 0 { -k1 } else { k1 });
    crate::util::string_push(&mut sb, ']');

    proof {
        assert(sb@ =~= bf_init_spec(
            s@,
            c@,
            k@[0] as int,
            k@[1] as int,
            j@[0] as int,
            j@[1] as int,
            h as int,
        ));
    }
    sb
}

/// The output tail as program text: for each step, the pointer moves, the
/// shorter of the upward and downward cell adjustments (ties choose `+`),
/// and the emitting `.`.
pub open spec fn tail_spec(
    nodes: Seq<Node>,
    goal: Seq<u8>,
    state: Seq<u8>,
    pointer: int,
    idx: int,
) -> Seq<char>
    decreases nodes.len() - idx,
{
    if idx < 0 || idx >= nodes.len() {
        Seq::empty()
    } else {
        let target = nodes[idx].pointer as int;
        let moves = if target > pointer {
            repeat_char('>', target - pointer)
        } else {
            repeat_char('<', pointer - target)
        };
        let desired: u8 = if 0 <= idx < goal.len() {
            goal[idx]
        } else {
            0
        };
        let current: u8 = if 0 <= target < state.len() {
            state[target]
        } else {
            0
        };
        let inc = vstd::wrapping::u8_specs::wrapping_sub(desired, current);
        let dec = vstd::wrapping::u8_specs::wrapping_sub(current, desired);
        let adj = if desired == current {
            Seq::<char>::empty()
        } else if inc <= dec {
            repeat_char('+', inc as int)
        } else {
            repeat_char('-', dec as int)
        };
        let newv: u8 = if desired == current {
            current
        } else if inc <= dec {
            vstd::wrapping::u8_specs::wrapping_add(current, inc)
        } else {
            vstd::wrapping::u8_specs::wrapping_sub(current, dec)
        };
        let nstate = if 0 <= target < state.len() {
            state.update(target, newv)
        } else {
            state
        };
        moves + adj + seq!['.'] + tail_spec(nodes, goal, nstate, target, idx + 1)
    }
}

/// Builds the command suffix that replays the solver path on the tape.
#[verifier::loop_isolation(false)]
#[verifier::rlimit(60)]
pub fn build_output_sequence(path: &Path, goal: &Vec<u8>, tape: &Vec<u8>, start_pointer: i32) -> (r:
    String)
    requires
        forall|i: int|
            0 <= i < path@.len() ==> 0 <= (#[trigger] path@[i]).pointer < tape@.len(),
        tape@.len() <= 0x0400_0000,
        -0x0100_0000 <= start_pointer <= 0x0100_0000,
    ensures
        r@ == tail_spec(path@, goal@, tape@, start_pointer as int, 0),
{
    let mut sequence = String::new();
    let mut state = copy_u8_vec(tape);
    let mut pointer = start_pointer;
    let mut step: usize = 0;
    while step < path.len()
        invariant
            0 <= step <= path@.len(),
            state@.len() == tape@.len(),
            -0x0100_0000 <= pointer <= 0x0400_0000,
            tail_spec(path@, goal@, tape@, start_pointer as int, 0) == sequence@ + tail_spec(
                path@,
                goal@,
                state@,
                pointer as int,
                step as int,
            ),
        decreases path@.len() - step,
    {
        let ghost seq_before = sequence@;
        let ghost state_before = state@;
        let ghost ptr_before = pointer as int;

        let node = path.get(step);
        let target = node.pointer;
        if target > pointer {
            append_repeated(&mut sequence, '>', target - pointer);
        } else if target < pointer {
            append_repeated(&mut sequence, '<', pointer - target);
        } else {
            proof {
                assert(sequence@ =~= seq_before + repeat_char('<', 0));
            }
        }
        pointer = target;

        let desired: u8 = if step < goal.len() {
            goal[step]
        } else {
            0
        };
        let current = state[target as usize];
        let ghost adj_done = sequence@;
        if desired != current {
            let increase = desired.wrapping_sub(current);
            let decrease = current.wrapping_sub(desired);
            if increase <= decrease {
                append_repeated(&mut sequence, '+', increase as i32);
                state.set(target as usize, current.wrapping_add(increase));
            } else {
                append_repeated(&mut sequence, '-', decrease as i32);
                state.set(target as usize, current.wrapping_sub(decrease));
            }
        } else {
            proof {
                assert(state@ =~= state_before.update(target as int, current));
            }
        }
        crate::util::string_push(&mut sequence, '.');

        proof {
            assert(tail_spec(path@, goal@, state_before, ptr_before, step as int) == (if target
                > ptr_before {
                repeat_char('>', target - ptr_before)
            } else {
                repeat_char('<', ptr_before - target)
            }) + (if desired == current {
                Seq::<char>::empty()
            } else if vstd::wrapping::u8_specs::wrapping_sub(desired, current)
                <= vstd::wrapping::u8_specs::wrapping_sub(current, desired) {
                repeat_char(
                    '+',
                    vstd::wrapping::u8_specs::wrapping_sub(desired, current) as int,
                )
            } else {
                repeat_char(
                    '-',
                    vstd::wrapping::u8_specs::wrapping_sub(current, desired) as int,
                )
            }) + seq!['.'] + tail_spec(path@, goal@, state@, target as int, step + 1));
            assert(sequence@ =~= seq_before + ((if target > ptr_before {
                repeat_char('>', target - ptr_before)
            } else {
                repeat_char('<', ptr_before - target)
            }) + (if desired == current {
                Seq::<char>::empty()
            } else if vstd::wrapping::u8_specs::wrapping_sub(desired, current)
                <= vstd::wrapping::u8_specs::wrapping_sub(current, desired) {
                repeat_char(
                    '+',
                    vstd::wrapping::u8_specs::wrapping_sub(desired, current) as int,
                )
            } else {
                repeat_char(
                    '-',
                    vstd::wrapping::u8_specs::wrapping_sub(current, desired) as int,
                )
            }) + seq!['.']));
        }
        step = step + 1;
    }
    proof {
        assert(sequence@ + tail_spec(path@, goal@, state@, pointer as int, path@.len() as int)
            =~= sequence@);
    }
    sequence
}

/// A signed value stored as a byte on the wrap-around ring.
pub open spec fn byte_of(v: i32) -> u8 {
    crate::util::add_byte_spec(0, v) as u8
}

/// The freshly seeded tape: zeros, with the terms of `s` at the cells from
/// two onward.
pub open spec fn seeded_tape(s: Seq<i32>, base: int) -> Seq<u8> {
    Seq::new(
        base as nat,
        |i: int|
            if 2 <= i < 2 + s.len() {
                byte_of(s[i - 2])
            } else {
                0u8
            },
    )
}

/// The divider's shift count: halve the lowest set bit until it is odd.
pub open spec fn shift_of(lsb: u32, shift: u32) -> u32
    decreases lsb,
{
    if lsb == 0 {
        shift
    } else if (lsb & 1) == 0 && shift < 31 {
        shift_of(lsb / 2, (shift + 1) as u32)
    } else {
        shift
    }
}

/// One pass of the coefficient block: adds `tmp` times each coefficient to
/// the cells right of the pointer, rejecting any cell off the tape.
pub open spec fn apply_coeffs(tape: Seq<u8>, pntr: int, c: Seq<i32>, i: int, tmp: i32) -> Option<
    Seq<u8>,
>
    decreases c.len() - i,
{
    if i < 0 || i >= c.len() {
        Some(tape)
    } else {
        let t_idx = pntr + i + 1;
        if t_idx < 0 {
            None
        } else if t_idx >= tape.len() {
            None
        } else {
            let nv = crate::util::add_byte_spec(
                tape[t_idx],
                vstd::wrapping::i32_specs::wrapping_mul(tmp, c[i]),
            ) as u8;
            apply_coeffs(tape.update(t_idx, nv), pntr, c, i + 1, tmp)
        }
    }
}

/// The outer initialization loop, cell by cell: exits with the pointer on a
/// zero cell, or rejects the tuple on a modular or bounds failure, or runs
/// into the stop column and rejects.
pub open spec fn sim_loop(
    tape: Seq<u8>,
    pntr: int,
    stop: int,
    c: Seq<i32>,
    k0: i32,
    k1: i32,
    j0: i32,
    mask: u32,
    shift: u32,
    m: i32,
    h: i32,
) -> Option<(int, Seq<u8>)>
    decreases stop - pntr,
{
    if pntr >= stop {
        None
    } else if pntr < 0 || pntr >= tape.len() {
        None
    } else if tape[pntr] == 0 {
        Some((pntr, tape))
    } else {
        let v1 = crate::util::add_byte_spec(tape[pntr], k0) as u8;
        let t1 = tape.update(pntr, v1);
        let after = if v1 != 0 {
            if ((v1 as u32) & mask) != 0 {
                None
            } else {
                let vs = (v1 as u32) >> shift;
                let tmp = ((vs as i32) * m) as i32;
                match apply_coeffs(t1, pntr, c, 0, tmp) {
                    None => None,
                    Some(t2) => {
                        let left = pntr - 1;
                        if left < 0 {
                            None
                        } else if left >= t2.len() {
                            None
                        } else {
                            Some(
                                t2.update(
                                    left,
                                    crate::util::add_byte_spec(
                                        t2[left],
                                        vstd::wrapping::i32_specs::wrapping_mul(tmp, j0),
                                    ) as u8,
                                ),
                            )
                        }
                    },
                }
            }
        } else {
            Some(t1)
        };
        match after {
            None => None,
            Some(t3) => {
                let t4 = t3.update(pntr, byte_of(h));
                let p2 = pntr + 1;
                if p2 >= t4.len() {
                    None
                } else {
                    sim_loop(
                        t4.update(p2, crate::util::add_byte_spec(t4[p2], k1) as u8),
                        p2,
                        stop,
                        c,
                        k0,
                        k1,
                        j0,
                        mask,
                        shift,
                        m,
                        h,
                    )
                }
            },
        }
    }
}

/// The whole tape simulation of one parameter tuple, in mathematics: the
/// seeded tape, the divider analysis against the inverse table, and the
/// outer loop.
pub open spec fn fill_spec(
    s: Seq<i32>,
    c: Seq<i32>,
    k0: i32,
    k1: i32,
    j0: i32,
    j1: i32,
    h: i32,
    max_tape: int,
) -> Option<(int, Seq<u8>)> {
    let base = if max_tape + s.len() > max_tape + 2 {
        max_tape + s.len()
    } else {
        max_tape + 2
    };
    if s.len() > 0 && 2 + s.len() > base {
        None
    } else if j1 <= 0 {
        None
    } else {
        let ju = j1 as u32;
        let lsb0 = ju & vstd::wrapping::u32_specs::wrapping_sub(0u32, ju);
        let mask = (lsb0 - 1) as u32;
        let shift = shift_of(lsb0, 0);
        let inv_idx = (ju >> shift) as int;
        if inv_idx >= 40 {
            None
        } else if modinv256_spec(inv_idx) == 0 {
            None
        } else if max_tape - c.len() <= 2 {
            None
        } else {
            sim_loop(
                seeded_tape(s, base),
                2,
                max_tape - c.len(),
                c,
                k0,
                k1,
                j0,
                mask,
                shift,
                modinv256_spec(inv_idx) as i32,
                h,
            )
        }
    }
}

/// One reported program: the parameters of its initialization segment, the
/// tape and pointer that segment produces, and the solver path that emits
/// the goal from there.
pub struct Solution {
    /// Length of the initialization segment.
    pub len: i32,
    /// Pointer position when the initialization loop exits.
    pub pntr: i32,
    /// Last tape cell the solver was allowed to touch.
    pub max_pntr: i32,
    /// Pre-loop seeding terms.
    pub s: Vec<i32>,
    /// Per-iteration additive coefficients.
    pub c: Vec<i32>,
    /// Deltas applied at the loop head and after it.
    pub k: [i32; 2],
    /// Divider cell contribution and divisor.
    pub j: [i32; 2],
    /// Value written into the current cell at iteration end.
    pub h: i32,
    /// Tape snapshot the solver searched.
    pub tape: Vec<u8>,
    /// Output steps that emit the goal.
    pub path: Path,
    /// Reported total: path cost plus initialization length.
    pub total: i32,
}

/// What the search promises of every reported solution: one output step per
/// goal byte, all of them inside the tape window, a nonnegative cost per
/// step, and — for paths free of rolling loops — the unique-cells rule and
/// the admissible lower bound.
pub open spec fn sol_ok(sol: Solution, goal: Seq<u8>, unique: bool) -> bool {
    &&& sol.path@.len() == goal.len()
    &&& forall|i: int|
        0 <= i < sol.path@.len() ==> 0 <= (#[trigger] sol.path@[i]).pointer <= sol.max_pntr
    &&& forall|i: int| 0 <= i < sol.path@.len() ==> (#[trigger] sol.path@[i]).cost >= 0
    &&& sol.total == seq_cost(sol.path@) + sol.len
    &&& (no_roll(sol.path@) && unique ==> distinct_pointers(sol.path@))
    &&& (no_roll(sol.path@) && goal.len() >= 1 ==> seq_cost(sol.path@) >= min_cost_spec(goal))
    &&& 0 < sol.pntr <= sol.max_pntr < sol.tape@.len()
}

/// A report carrying exactly the tuple that was handed to the solver.
pub open spec fn direct_sol(
    sol: Solution,
    s: Seq<i32>,
    c: Seq<i32>,
    k: Seq<i32>,
    j: Seq<i32>,
    h: i32,
    tape: Seq<u8>,
    pntr: i32,
    max_pntr: i32,
    len: i32,
) -> bool {
    &&& sol.s@ == s
    &&& sol.c@ == c
    &&& sol.k@ == k
    &&& sol.j@ == j
    &&& sol.h == h
    &&& sol.tape@ == tape
    &&& sol.pntr == pntr
    &&& sol.max_pntr == max_pntr
    &&& sol.len == len
}

/// The tape with the cells right of the pointer byte-negated: the snapshot
/// the mirrored solve searches.
pub open spec fn mirror_tape(tape: Seq<u8>, pntr: int, clen: int) -> Seq<u8> {
    Seq::new(
        tape.len(),
        |x: int|
            if pntr < x <= pntr + clen {
                crate::util::negate_byte_spec(tape[x]) as u8
            } else {
                tape[x]
            },
    )
}

/// A report carrying the mirrored form of the tuple: every `s` term, both
/// `k` terms, `j0` and `h` negated, `j1` and `c` kept, over the mirrored
/// tape.
pub open spec fn mirror_sol(
    sol: Solution,
    s: Seq<i32>,
    c: Seq<i32>,
    k: Seq<i32>,
    j: Seq<i32>,
    h: i32,
    tape: Seq<u8>,
    pntr: i32,
    max_pntr: i32,
    len: i32,
) -> bool {
    &&& sol.s@.len() == s.len()
    &&& (forall|i: int| 0 <= i < s.len() ==> (#[trigger] sol.s@[i]) as int == -(s[i] as int))
    &&& sol.c@ == c
    &&& sol.k@.len() == 2
    &&& sol.k@[0] as int == -(k[0] as int)
    &&& sol.k@[1] as int == -(k[1] as int)
    &&& sol.j@.len() == 2
    &&& sol.j@[0] as int == -(j[0] as int)
    &&& sol.j@[1] == j[1]
    &&& sol.h as int == -(h as int)
    &&& sol.tape@ == mirror_tape(tape, pntr as int, c.len() as int)
    &&& sol.pntr == pntr
    &&& sol.max_pntr == max_pntr
    &&& sol.len == len
}

/// The report carries the handed-in parameters unchanged.
pub open spec fn params_direct(
    sol: Solution,
    s: Seq<i32>,
    c: Seq<i32>,
    k: Seq<i32>,
    j: Seq<i32>,
    h: i32,
    len: int,
) -> bool {
    &&& sol.s@ == s
    &&& sol.c@ == c
    &&& sol.k@ == k
    &&& sol.j@ == j
    &&& sol.h == h
    &&& sol.len == len
}

/// The report carries the mirrored form of the handed-in parameters.
pub open spec fn params_mirror(
    sol: Solution,
    s: Seq<i32>,
    c: Seq<i32>,
    k: Seq<i32>,
    j: Seq<i32>,
    h: i32,
    len: int,
) -> bool {
    &&& sol.s@.len() == s.len()
    &&& (forall|i: int| 0 <= i < s.len() ==> (#[trigger] sol.s@[i]) as int == -(s[i] as int))
    &&& sol.c@ == c
    &&& sol.k@.len() == 2
    &&& sol.k@[0] as int == -(k[0] as int)
    &&& sol.k@[1] as int == -(k[1] as int)
    &&& sol.j@.len() == 2
    &&& sol.j@[0] as int == -(j[0] as int)
    &&& sol.j@[1] == j[1]
    &&& sol.h as int == -(h as int)
    &&& sol.len == len
}

/// One parameter tuple of the enumerated family accounts for the report:
/// its segment costs fall in the sweep's ranges for this length, its
/// simulation succeeds at the reported pointer, and the report carries the
/// tuple itself or its mirrored form.
pub open spec fn tuple_witness(
    sol: Solution,
    cr: Cruncher,
    len: int,
    s: Seq<i32>,
    c: Seq<i32>,
    k: Seq<i32>,
    j: Seq<i32>,
    h: i32,
) -> bool {
    let slen = s_cost(s) - 1;
    let clen = c_cost_from(c, true);
    let klen = iabs(k[0] as int) + iabs(k[1] as int);
    let jlen = j[0] + j[1];
    let hlen = len - slen - clen - klen - jlen - 7;
    &&& k.len() == 2
    &&& j.len() == 2
    &&& (params_direct(sol, s, c, k, j, h, len) || params_mirror(sol, s, c, k, j, h, len))
    &&& (if cr.spec_min_slen() > 1 {
        cr.spec_min_slen()
    } else {
        1int
    }) <= slen <= (if cr.spec_max_slen() < len - 12 {
        cr.spec_max_slen()
    } else {
        len - 12
    })
    &&& (if cr.spec_min_clen() > 3 {
        cr.spec_min_clen()
    } else {
        3int
    }) <= clen <= (if cr.spec_max_clen() < len - slen - 9 {
        cr.spec_max_clen()
    } else {
        len - slen - 9
    })
    &&& 0 <= klen <= len - slen - clen - 9
    &&& 2 <= jlen <= len - slen - clen - klen - 7
    &&& j[0] >= 1 && j[1] >= 1
    &&& iabs(h as int) == (if hlen > 0 {
        hlen
    } else {
        0int
    })
    &&& (fill_spec(s, c, k[0], k[1], j[0], j[1], h, cr.spec_max_tape()) matches Some(qp)
        && sol.pntr as int == qp.0 && sol.pntr > 0)
}

/// Some tuple of the enumerated family accounts for the report.
pub open spec fn sol_tuple_ok(sol: Solution, cr: Cruncher, len: int) -> bool {
    exists|s: Seq<i32>, c: Seq<i32>, k: Seq<i32>, j: Seq<i32>, h: i32| #[trigger] tuple_witness(
        sol,
        cr,
        len,
        s,
        c,
        k,
        j,
        h,
    )
}

/// One stretch of the search, from state `prev` to state `cur`, growing the
/// report vector from `out_old` to `out_new`: the configuration is
/// untouched, every new report satisfies `sol_ok`, and the limit never
/// grows unless some new report's path used a rolling loop.
pub open spec fn sweep_step(
    prev: Cruncher,
    cur: Cruncher,
    out_old: Seq<Solution>,
    out_new: Seq<Solution>,
    len: int,
) -> bool {
    &&& cur.wf()
    &&& Cruncher::same_but_limit(prev, cur)
    &&& (!prev.spec_rolling() ==> cur.spec_limit() == prev.spec_limit())
    &&& (prev.spec_rolling() && prev.spec_goal().len() >= 1 ==> (cur.spec_limit()
        <= prev.spec_limit() || exists|i: int|
        out_old.len() <= i < out_new.len() && !no_roll((#[trigger] out_new[i]).path@)))
    &&& out_new.len() >= out_old.len()
    &&& (forall|i: int| 0 <= i < out_old.len() ==> out_new[i] == out_old[i])
    &&& (forall|i: int|
        out_old.len() <= i < out_new.len() ==> sol_ok(
            #[trigger] out_new[i],
            prev.spec_goal(),
            prev.spec_unique_cells(),
        ) && out_new[i].len == len && out_new[i].max_pntr == out_new[i].pntr
            + out_new[i].c@.len() + 1 && prev.spec_min_tape() <= out_new[i].max_pntr
            <= prev.spec_max_tape())
}

/// Two consecutive stretches of the search make one.
pub proof fn lemma_sweep_step_trans(
    a: Cruncher,
    b: Cruncher,
    c: Cruncher,
    o1: Seq<Solution>,
    o2: Seq<Solution>,
    o3: Seq<Solution>,
    len: int,
)
    requires
        sweep_step(a, b, o1, o2, len),
        sweep_step(b, c, o2, o3, len),
    ensures
        sweep_step(a, c, o1, o3, len),
{
    if a.spec_rolling() && a.spec_goal().len() >= 1 {
        if c.spec_limit() > a.spec_limit() {
            if b.spec_limit() <= a.spec_limit() {
                let i = choose|i: int|
                    o2.len() <= i < o3.len() && !no_roll((#[trigger] o3[i]).path@);
                assert(o1.len() <= i < o3.len() && !no_roll(o3[i].path@));
            } else {
                if c.spec_limit() <= b.spec_limit() {
                    let i = choose|i: int|
                        o1.len() <= i < o2.len() && !no_roll((#[trigger] o2[i]).path@);
                    assert(o3[i] == o2[i]);
                    assert(o1.len() <= i < o3.len() && !no_roll(o3[i].path@));
                } else {
                    let i = choose|i: int|
                        o2.len() <= i < o3.len() && !no_roll((#[trigger] o3[i]).path@);
                    assert(o1.len() <= i < o3.len() && !no_roll(o3[i].path@));
                }
            }
        }
    }
}

/// Generates candidate initialization segments and validates them against
/// the goal with the solver.
pub struct Cruncher {
    min_tape: i32,
    max_tape: i32,
    max_node_cost: i32,
    max_loops: i32,
    min_slen: i32,
    max_slen: i32,
    min_clen: i32,
    max_clen: i32,
    goal: Vec<u8>,
    limit: i32,
    rolling_limit: bool,
    unique_cells: bool,
}

impl Cruncher {
    pub closed spec fn spec_goal(self) -> Seq<u8> {
        self.goal@
    }

    pub closed spec fn spec_limit(self) -> int {
        self.limit as int
    }

    pub closed spec fn spec_rolling(self) -> bool {
        self.rolling_limit
    }

    pub closed spec fn spec_unique_cells(self) -> bool {
        self.unique_cells
    }

    pub closed spec fn spec_max_tape(self) -> int {
        self.max_tape as int
    }

    pub closed spec fn spec_min_tape(self) -> int {
        self.min_tape as int
    }

    pub closed spec fn spec_max_node_cost(self) -> int {
        self.max_node_cost as int
    }

    pub closed spec fn spec_min_slen(self) -> int {
        self.min_slen as int
    }

    pub closed spec fn spec_max_slen(self) -> int {
        self.max_slen as int
    }

    pub closed spec fn spec_min_clen(self) -> int {
        self.min_clen as int
    }

    pub closed spec fn spec_max_clen(self) -> int {
        self.max_clen as int
    }

    /// The bounds under which the whole search stays inside `i32`.
    pub open spec fn wf(self) -> bool {
        &&& self.spec_goal().len() <= 100_000
        &&& self.spec_goal().len() * (self.spec_max_node_cost() + 258) <= 0x1000_0000
        &&& -10_000 <= self.spec_max_node_cost() <= 10_000
        &&& 0 <= self.spec_max_tape() <= 0x0100_0000
        &&& -0x0100_0000 <= self.spec_min_tape() <= 0x0100_0000
        &&& -0x0100_0000 <= self.spec_min_slen() <= 0x0100_0000
        &&& -0x0100_0000 <= self.spec_max_slen() <= 0x0100_0000
        &&& -0x0100_0000 <= self.spec_min_clen() <= 0x0100_0000
        &&& -0x0100_0000 <= self.spec_max_clen() <= 0x0100_0000
        &&& -0x0200_0000 <= self.spec_limit() <= 0x1200_0000
    }

    /// All configuration fields agree; only the limit may move.
    pub open spec fn same_but_limit(a: Cruncher, b: Cruncher) -> bool {
        &&& a.spec_goal() == b.spec_goal()
        &&& a.spec_rolling() == b.spec_rolling()
        &&& a.spec_unique_cells() == b.spec_unique_cells()
        &&& a.spec_max_tape() == b.spec_max_tape()
        &&& a.spec_min_tape() == b.spec_min_tape()
        &&& a.spec_max_node_cost() == b.spec_max_node_cost()
        &&& a.spec_min_slen() == b.spec_min_slen()
        &&& a.spec_max_slen() == b.spec_max_slen()
        &&& a.spec_min_clen() == b.spec_min_clen()
        &&& a.spec_max_clen() == b.spec_max_clen()
    }

    /// The current program-length limit.
    pub fn limit(&self) -> (r: i32)
        ensures
            r == self.spec_limit(),
    {
        self.limit
    }

    /// Prepares the goal bytes from the option text and fixes the initial
    /// search limit: the given one, or the derived one with the rolling
    /// limit forced on. An unset segment-length bound becomes the top of
    /// the admitted option range, above every reachable segment length, so
    /// it never binds.
    pub fn new(options: &Options) -> (r: Result<Cruncher, PrepError>)
        requires
            options.valid(),
            options.text@.len() * (options.max_node_cost + 258) <= 0x1000_0000,
        ensures
            ({
                let dec = unescape_spec(options.text@);
                &&& (r is Err <==> (dec is Err || (dec is Ok && iso_spec(dec->Ok_0) is Err)))
                &&& (r matches Err(e) ==> (if dec is Err {
                    e == dec->Err_0
                } else {
                    e == iso_spec(dec->Ok_0)->Err_0
                }))
                &&& (r matches Ok(cr) ==> {
                    &&& cr.wf()
                    &&& dec is Ok
                    &&& iso_spec(dec->Ok_0) is Ok
                    &&& cr.spec_goal() == iso_spec(dec->Ok_0)->Ok_0
                    &&& cr.spec_unique_cells() == options.unique_cells
                    &&& cr.spec_max_tape() == options.max_tape
                    &&& cr.spec_min_tape() == options.min_tape
                    &&& cr.spec_max_node_cost() == options.max_node_cost
                    &&& cr.spec_min_slen() == options.min_slen
                    &&& cr.spec_min_clen() == options.min_clen
                    &&& cr.spec_max_slen() == (match options.max_slen {
                        Some(m) => m as int,
                        None => 0x0100_0000int,
                    })
                    &&& cr.spec_max_clen() == (match options.max_clen {
                        Some(m) => m as int,
                        None => 0x0100_0000int,
                    })
                    &&& (options.limit matches Some(l) ==> cr.spec_limit() == l
                        && cr.spec_rolling() == options.rolling_limit)
                    &&& (options.limit is None ==> cr.spec_limit() == auto_limit(cr.spec_goal())
                        && cr.spec_rolling())
                })
            }),
    {
        let decoded = match unescape_regex_like(options.text.as_str()) {
            Ok(d) => d,
            Err(e) => {
                return Err(e);
            },
        };
        let goal = match to_iso_8859_1_bytes(decoded.as_str()) {
            Ok(g) => g,
            Err(e) => {
                return Err(e);
            },
        };
        proof {
            lemma_unescape_len(options.text@);
            lemma_iso_len(decoded@);
            assert(goal@.len() <= options.text@.len());
            assert(goal@.len() * (options.max_node_cost + 258) <= 0x1000_0000)
                by (nonlinear_arith)
                requires
                    goal@.len() <= options.text@.len(),
                    options.text@.len() * (options.max_node_cost + 258) <= 0x1000_0000,
                    -10_000 <= options.max_node_cost,
            ;
        }

        let (limit, rolling_limit) = match options.limit {
            Some(l) => (l, options.rolling_limit),
            None => {
                let mut diff: u32 = 0;
                let mut last: u8 = 0;
                let mut i: usize = 0;
                while i < goal.len()
                    invariant
                        0 <= i <= goal@.len(),
                        goal@.len() <= 100_000,
                        diff <= 255 * i,
                        diff_sum_from(goal@, 0, 0) == diff + diff_sum_from(
                            goal@,
                            i as int,
                            last,
                        ),
                        i > 0 ==> last == goal@[i - 1],
                        i == 0 ==> last == 0,
                    decreases goal@.len() - i,
                {
                    let d = crate::util::abs_diff(goal[i], last);
                    diff = diff + (d as u32);
                    last = goal[i];
                    i = i + 1;
                }
                let lim = ((diff / 3) as i32) + (goal.len() as i32) + 20;
                (lim, true)
            },
        };

        let max_slen = match options.max_slen {
            Some(m) => m,
            None => 0x0100_0000,
        };
        let max_clen = match options.max_clen {
            Some(m) => m,
            None => 0x0100_0000,
        };

        Ok(
            Cruncher {
                min_tape: options.min_tape,
                max_tape: options.max_tape,
                max_node_cost: options.max_node_cost,
                max_loops: options.max_loops,
                min_slen: options.min_slen,
                max_slen,
                min_clen: options.min_clen,
                max_clen,
                goal,
                limit,
                rolling_limit,
                unique_cells: options.unique_cells,
            },
        )
    }

    /// Runs the initialization loop of one parameter tuple symbolically on a
    /// fresh tape, exactly as `fill_spec` describes. Returns the exit
    /// pointer and the tape exactly when the outer loop leaves a zero under
    /// the pointer before reaching the stop column; every modular or bounds
    /// failure rejects the tuple instead.
    #[verifier::loop_isolation(false)]
    #[verifier::rlimit(100)]
    pub fn fill_tape(
        &self,
        s: &Vec<i32>,
        c: &Vec<i32>,
        k0: i32,
        k1: i32,
        j0: i32,
        j1: i32,
        h: i32,
    ) -> (r: Option<(i32, Vec<u8>)>)
        requires
            self.wf(),
            s@.len() <= 0x0200_0000,
            c@.len() <= 0x0100_0000,
            -0x0100_0000 <= j1 <= 0x0100_0000,
        ensures
            ({
                let q = fill_spec(s@, c@, k0, k1, j0, j1, h, self.spec_max_tape());
                &&& (r is Some <==> q is Some)
                &&& (r matches Some(pt) ==> (q matches Some(qp) && pt.0 == qp.0 && pt.1@
                    == qp.1))
            }),
            r matches Some(pt) ==> {
                &&& 2 <= pt.0 < self.spec_max_tape() - c@.len()
                &&& self.spec_max_tape() + 2 <= pt.1@.len() <= 0x0400_0000
                &&& pt.1@[pt.0 as int] == 0
            },
            j1 <= 0 ==> r is None,
            self.spec_max_tape() - c@.len() <= 2 ==> r is None,
    {
        let extra = s.len();
        let size = match self.max_tape.checked_add(extra as i32) {
            None => {
                return None;
            },
            Some(v) => v,
        };
        let floor = (self.max_tape + 2) as usize;
        let base = if (size as usize) > floor {
            size as usize
        } else {
            floor
        };
        let mut tape = zero_tape(base);

        let mut idx0: usize = 0;
        while idx0 < s.len()
            invariant
                0 <= idx0 <= s@.len(),
                idx0 > 0 ==> idx0 + 1 < base,
                tape@.len() == base,
                forall|jx: int|
                    0 <= jx < base ==> tape@[jx] == (if 2 <= jx < 2 + idx0 {
                        byte_of(s@[jx - 2])
                    } else {
                        0u8
                    }),
            decreases s@.len() - idx0,
        {
            let pos = idx0 + 2;
            if pos >= tape.len() {
                proof {
                    assert(2 + s@.len() > base);
                }
                return None;
            }
            tape.set(pos, add_byte(0, s[idx0]));
            idx0 = idx0 + 1;
        }
        proof {
            assert(tape@ =~= seeded_tape(s@, base as int));
        }

        // a nonpositive divider never finds an inverse in the table
        if j1 <= 0 {
            return None;
        }
        let ju = j1 as u32;
        let lsb0 = ju & (0u32.wrapping_sub(ju));
        proof {
            assert(lsb0 >= 1 && lsb0 <= ju) by (bit_vector)
                requires
                    lsb0 == ju & (0u32.wrapping_sub(ju)),
                    ju >= 1,
            ;
        }
        let mask = lsb0 - 1;
        let mut lsb = lsb0;
        let mut shift: u32 = 0;
        while (lsb & 1) == 0 && shift < 31
            invariant
                1 <= lsb,
                0 <= shift <= 31,
                shift_of(lsb0, 0) == shift_of(lsb, shift),
            decreases lsb,
        {
            proof {
                assert(lsb & 1 == 0 ==> lsb % 2 == 0) by (bit_vector);
            }
            lsb = lsb / 2;
            shift = shift + 1;
        }
        proof {
            assert(shift == shift_of(lsb0, 0));
        }
        let inv_idx = (ju >> shift) as usize;
        if inv_idx >= 40 {
            return None;
        }
        let m = modinv256(inv_idx);
        if m == 0 {
            return None;
        }

        let mut pntr: i32 = 2;
        let stop = self.max_tape - (c.len() as i32);
        if stop <= pntr {
            return None;
        }
        let ghost spec_result = sim_loop(
            seeded_tape(s@, base as int),
            2,
            stop as int,
            c@,
            k0,
            k1,
            j0,
            mask,
            shift,
            m,
            h,
        );

        while pntr < stop
            invariant
                2 <= pntr <= stop,
                tape@.len() == base,
                0 <= m <= 255,
                0 <= shift <= 31,
                spec_result == sim_loop(
                    tape@,
                    pntr as int,
                    stop as int,
                    c@,
                    k0,
                    k1,
                    j0,
                    mask,
                    shift,
                    m,
                    h,
                ),
            decreases stop - pntr,
        {
            let ghost tape_entry = tape@;
            let idx = pntr as usize;
            if idx >= tape.len() {
                return None;
            }
            if tape[idx] == 0 {
                return Some((pntr, tape));
            }

            let v1 = add_byte(tape[idx], k0);
            tape.set(idx, v1);
            proof {
                assert(tape@ == tape_entry.update(pntr as int, v1));
            }
            if v1 != 0 {
                if ((v1 as u32) & mask) != 0 {
                    return None;
                }
                let vs = (v1 as u32) >> shift;
                proof {
                    assert(vs <= 255) by (bit_vector)
                        requires
                            vs == (v1 as u32) >> shift,
                            v1 as u32 <= 255,
                    ;
                    assert(0 <= (vs as i32) * m <= 255 * 255) by (nonlinear_arith)
                        requires
                            0 <= vs <= 255,
                            0 <= m <= 255,
                    ;
                }
                let tmp = (vs as i32) * m;
                let ghost tape_c = tape@;
                let mut offset: usize = 0;
                while offset < c.len()
                    invariant
                        0 <= offset <= c@.len(),
                        tape@.len() == base,
                        apply_coeffs(tape_c, pntr as int, c@, 0, tmp) == apply_coeffs(
                            tape@,
                            pntr as int,
                            c@,
                            offset as int,
                            tmp,
                        ),
                    decreases c@.len() - offset,
                {
                    let t_idx = pntr + (offset as i32) + 1;
                    if t_idx < 0 {
                        return None;
                    }
                    let t_us = t_idx as usize;
                    if t_us >= tape.len() {
                        return None;
                    }
                    tape.set(t_us, add_byte(tape[t_us], tmp.wrapping_mul(c[offset])));
                    offset = offset + 1;
                }
                proof {
                    assert(apply_coeffs(tape_c, pntr as int, c@, 0, tmp) == Some(tape@));
                }
                let left_idx = pntr - 1;
                if left_idx < 0 {
                    return None;
                }
                let left_us = left_idx as usize;
                if left_us >= tape.len() {
                    return None;
                }
                tape.set(left_us, add_byte(tape[left_us], tmp.wrapping_mul(j0)));
            }

            tape.set(idx, add_byte(0, h));
            pntr = pntr + 1;
            let idx2 = pntr as usize;
            if idx2 >= tape.len() {
                return None;
            }
            tape.set(idx2, add_byte(tape[idx2], k1));
        }

        None
    }

    /// Solves one completed tape snapshot, reports every accepted solution,
    /// and — with the rolling limit on — tightens the limit after each
    /// report. Also explores the mirrored tail when `c` has more than one
    /// term, reporting its negated parameter form only when strictly
    /// better.
    #[verifier::loop_isolation(false)]
    #[verifier::rlimit(60)]
    pub fn try_solve(
        &mut self,
        len: i32,
        pntr: i32,
        max_pntr: i32,
        s: &Vec<i32>,
        c: &Vec<i32>,
        k: &[i32; 2],
        j: &[i32; 2],
        h: i32,
        tape: Vec<u8>,
        out: &mut Vec<Solution>,
    )
        requires
            old(self).wf(),
            -0x0100_0000 <= len <= 0x0100_0000,
            0 < pntr <= max_pntr < tape@.len() <= 0x0400_0000,
            max_pntr <= 0x0100_0000,
            max_pntr == pntr + c@.len() + 1,
            forall|i: int| 0 <= i < s@.len() ==> -0x0100_0000 <= #[trigger] s@[i] <= 0x0100_0000,
            -0x0100_0000 <= k@[0] <= 0x0100_0000,
            -0x0100_0000 <= k@[1] <= 0x0100_0000,
            -0x0100_0000 <= j@[0] <= 0x0100_0000,
            -0x0100_0000 <= j@[1] <= 0x0100_0000,
            -0x0100_0000 <= h <= 0x0100_0000,
            old(self).spec_min_tape() <= max_pntr <= old(self).spec_max_tape(),
        ensures
            final(self).wf(),
            Cruncher::same_but_limit(*old(self), *final(self)),
            !old(self).spec_rolling() ==> final(self).spec_limit() == old(self).spec_limit(),
            old(self).spec_rolling() && old(self).spec_goal().len() >= 1 ==> (final(self)
                .spec_limit() <= old(self).spec_limit() || exists|i: int|
                old(out)@.len() <= i < final(out)@.len() && !no_roll(
                    (#[trigger] final(out)@[i]).path@,
                )),
            final(out)@.len() >= old(out)@.len(),
            forall|i: int| 0 <= i < old(out)@.len() ==> final(out)@[i] == old(out)@[i],
            forall|i: int|
                old(out)@.len() <= i < final(out)@.len() ==> sol_ok(
                    #[trigger] final(out)@[i],
                    old(self).spec_goal(),
                    old(self).spec_unique_cells(),
                ) && final(out)@[i].len == len,
            final(out)@.len() <= old(out)@.len() + 2,
            forall|i: int|
                old(out)@.len() <= i < final(out)@.len() ==> (direct_sol(
                    #[trigger] final(out)@[i],
                    s@,
                    c@,
                    k@,
                    j@,
                    h,
                    tape@,
                    pntr,
                    max_pntr,
                    len,
                ) || mirror_sol(final(out)@[i], s@, c@, k@, j@, h, tape@, pntr, max_pntr, len)),
            final(out)@.len() == old(out)@.len() + 2 ==> ({
                let first = final(out)@[old(out)@.len() as int];
                let second = final(out)@[old(out)@.len() as int + 1];
                &&& direct_sol(first, s@, c@, k@, j@, h, tape@, pntr, max_pntr, len)
                &&& mirror_sol(second, s@, c@, k@, j@, h, tape@, pntr, max_pntr, len)
                &&& seq_cost(second.path@) < seq_cost(first.path@)
            }),
    {
        let ghost goal = old(self).spec_goal();
        let ghost mnc = old(self).spec_max_node_cost();
        let ghost unique = old(self).spec_unique_cells();
        let ghost tape0 = tape@;

        let tape1 = copy_u8_vec(&tape);
        let mut solver1 = Solver::new(
            self.goal.as_slice(),
            tape1,
            pntr,
            max_pntr,
            self.max_node_cost,
            self.unique_cells,
        );
        let budget1 = self.limit - len;
        let solution1 = solver1.solve(budget1);

        let mut have1 = false;
        let mut cost1: i32 = 0;
        match solution1 {
            Some(path1) => {
                proof {
                    lemma_seq_cost_nonneg(path1@);
                    assert forall|m: int| 0 <= m <= path1@.len() implies i32::MIN <= #[trigger]
                        seq_cost(path1@.take(m)) <= i32::MAX by {
                        lemma_seq_cost_prefix_bounds(path1@, m);
                    }
                }
                let pc = path1.cost();
                cost1 = pc;
                have1 = true;
                let sol = Solution {
                    len,
                    pntr,
                    max_pntr,
                    s: copy_i32_vec(s),
                    c: copy_i32_vec(c),
                    k: [k[0], k[1]],
                    j: [j[0], j[1]],
                    h,
                    tape: copy_u8_vec(&tape),
                    path: path1,
                    total: pc + len,
                };
                out.push(sol);
                proof {
                    let ns = out@[out@.len() - 1];
                    assert(ns.k@ =~= k@);
                    assert(ns.j@ =~= j@);
                    assert(direct_sol(ns, s@, c@, k@, j@, h, tape0, pntr, max_pntr, len));
                    let p = out@[out@.len() - 1].path@;
                    if goal.len() >= 1 && p.last().rolling {
                        assert(p[p.len() - 1].rolling);
                        assert(!no_roll(p));
                    }
                }
                if self.rolling_limit {
                    self.limit = pc + len;
                }
                proof {
                    if old(self).spec_rolling() && goal.len() >= 1 && self.spec_limit() > old(
                        self,
                    ).spec_limit() {
                        assert(!no_roll(out@[old(out)@.len() as int].path@));
                    }
                }
            },
            None => {},
        }

        if c.len() > 1 {
            let mut tape2 = tape;
            let mut ii: usize = 1;
            while ii <= c.len()
                invariant
                    1 <= ii <= c@.len() + 1,
                    tape2@.len() == tape0.len(),
                    forall|x: int|
                        0 <= x < tape0.len() ==> tape2@[x] == (if pntr < x < pntr + ii {
                            crate::util::negate_byte_spec(tape0[x]) as u8
                        } else {
                            tape0[x]
                        }),
                decreases c@.len() + 1 - ii,
            {
                let idx = (pntr + (ii as i32)) as usize;
                if idx < tape2.len() {
                    tape2.set(idx, negate_byte(tape2[idx]));
                }
                ii = ii + 1;
            }
            proof {
                assert(tape2@ =~= mirror_tape(tape0, pntr as int, c@.len() as int));
            }

            let tape2_copy = copy_u8_vec(&tape2);
            let mut solver2 = Solver::new(
                self.goal.as_slice(),
                tape2_copy,
                pntr,
                max_pntr,
                self.max_node_cost,
                self.unique_cells,
            );
            let budget2 = self.limit - len;
            let solution2 = solver2.solve(budget2);

            match solution2 {
                Some(path2) => {
                    proof {
                        lemma_seq_cost_nonneg(path2@);
                        assert forall|m: int| 0 <= m <= path2@.len() implies i32::MIN
                            <= #[trigger] seq_cost(path2@.take(m)) <= i32::MAX by {
                            lemma_seq_cost_prefix_bounds(path2@, m);
                        }
                    }
                    let pc2 = path2.cost();
                    let better = !have1 || pc2 < cost1;
                    if better {
                        let mut sneg: Vec<i32> = Vec::new();
                        let mut si: usize = 0;
                        while si < s.len()
                            invariant
                                0 <= si <= s@.len(),
                                sneg@.len() == si,
                                forall|m: int|
                                    0 <= m < si ==> (#[trigger] sneg@[m]) as int == -(
                                    s@[m] as int),
                            decreases s@.len() - si,
                        {
                            sneg.push(-s[si]);
                            si = si + 1;
                        }
                        let kneg = [-k[0], -k[1]];
                        let jneg = [-j[0], j[1]];
                        let sol = Solution {
                            len,
                            pntr,
                            max_pntr,
                            s: sneg,
                            c: copy_i32_vec(c),
                            k: kneg,
                            j: jneg,
                            h: -h,
                            tape: tape2,
                            path: path2,
                            total: pc2 + len,
                        };
                        out.push(sol);
                        proof {
                            let ns = out@[out@.len() - 1];
                            assert(ns.k@[0] as int == -(k@[0] as int));
                            assert(ns.k@[1] as int == -(k@[1] as int));
                            assert(ns.j@[0] as int == -(j@[0] as int));
                            assert(ns.j@[1] == j@[1]);
                            assert(mirror_sol(ns, s@, c@, k@, j@, h, tape0, pntr, max_pntr, len));
                            let p = out@[out@.len() - 1].path@;
                            if goal.len() >= 1 && p.last().rolling {
                                assert(p[p.len() - 1].rolling);
                                assert(!no_roll(p));
                            }
                        }
                        if self.rolling_limit {
                            self.limit = pc2 + len;
                        }
                        proof {
                            if old(self).spec_rolling() && goal.len() >= 1 && self.spec_limit()
                                > old(self).spec_limit() {
                                if !no_roll(out@[out@.len() - 1].path@) {
                                } else {
                                    assert(!no_roll(out@[old(out)@.len() as int].path@));
                                }
                            }
                        }
                    }
                },
                None => {},
            }
        }
    }

    /// Simulates one parameter tuple and, when its tape qualifies, hands it
    /// to the solver.
    #[verifier::loop_isolation(false)]
    fn consider(
        &mut self,
        len: i32,
        s: &Vec<i32>,
        c: &Vec<i32>,
        k: &[i32; 2],
        j: &[i32; 2],
        h: i32,
        out: &mut Vec<Solution>,
    )
        requires
            old(self).wf(),
            -0x0100_0000 <= len <= 0x0100_0000,
            s@.len() <= 0x0200_0000,
            c@.len() <= 0x0100_0000,
            forall|i: int| 0 <= i < s@.len() ==> -0x0100_0000 <= #[trigger] s@[i] <= 0x0100_0000,
            -0x0100_0000 <= k@[0] <= 0x0100_0000,
            -0x0100_0000 <= k@[1] <= 0x0100_0000,
            -0x0100_0000 <= j@[0] <= 0x0100_0000,
            -0x0100_0000 <= j@[1] <= 0x0100_0000,
            -0x0100_0000 <= h <= 0x0100_0000,
        ensures
            sweep_step(*old(self), *final(self), old(out)@, final(out)@, len as int),
            forall|i: int|
                old(out)@.len() <= i < final(out)@.len() ==> ({
                    let q = fill_spec(
                        s@,
                        c@,
                        k@[0],
                        k@[1],
                        j@[0],
                        j@[1],
                        h,
                        old(self).spec_max_tape(),
                    );
                    &&& (params_direct(#[trigger] final(out)@[i], s@, c@, k@, j@, h, len as int)
                        || params_mirror(final(out)@[i], s@, c@, k@, j@, h, len as int))
                    &&& (q matches Some(qp) && final(out)@[i].pntr as int == qp.0 && final(out)@[i].pntr > 0)
                }),
    {
        match self.fill_tape(s, c, k[0], k[1], j[0], j[1], h) {
            Some((pntr, tape)) => {
                let max_pntr = pntr + (c.len() as i32) + 1;
                if pntr > 0 && max_pntr >= self.min_tape && max_pntr <= self.max_tape {
                    self.try_solve(len, pntr, max_pntr, s, c, k, j, h, tape, out);
                }
            },
            None => {},
        }
    }

    /// Enumerates every initialization tuple of the given program length,
    /// in the fixed shape
    /// `{..s1}<{s0}[{k0}[<{j0}>{-j1}>{c0}>{c1}..<..<]{h}>{k1}]`,
    /// and reports each candidate the solver completes into a program.
    #[verifier::loop_isolation(false)]
    #[verifier::rlimit(100)]
    pub fn crunch(&mut self, len: i32) -> (out: Vec<Solution>)
        requires
            old(self).wf(),
            -0x0100_0000 <= len <= 0x0100_0000,
        ensures
            sweep_step(*old(self), *final(self), Seq::empty(), out@, len as int),
            final(self).wf(),
            !old(self).spec_rolling() ==> final(self).spec_limit() == old(self).spec_limit(),
            old(self).spec_rolling() && old(self).spec_goal().len() >= 1 ==> (final(self)
                .spec_limit() <= old(self).spec_limit() || exists|i: int|
                0 <= i < out@.len() && !no_roll((#[trigger] out@[i]).path@)),
            forall|i: int|
                0 <= i < out@.len() ==> sol_ok(
                    #[trigger] out@[i],
                    old(self).spec_goal(),
                    old(self).spec_unique_cells(),
                ) && out@[i].len == len,
            forall|i: int| 0 <= i < out@.len() ==> sol_tuple_ok(#[trigger] out@[i], *old(self), len as int),
    {
        let mut out: Vec<Solution> = Vec::new();

        let s_min = if self.min_slen > 1 {
            self.min_slen
        } else {
            1
        };
        let s_max = if self.max_slen < len - 12 {
            self.max_slen
        } else {
            len - 12
        };
        if s_min > s_max {
            return out;
        }

        let mut slen = s_min;
        while slen <= s_max
            invariant
                s_min <= slen,
                sweep_step(*old(self), *self, Seq::empty(), out@, len as int),
                forall|m: int|
                    0 <= m < out@.len() ==> sol_tuple_ok(#[trigger] out@[m], *old(self), len as int),
            decreases s_max - slen + 1,
        {
            let s_list = s_list_gen(slen);
            let mut si: usize = 0;
            while si < s_list.len()
                invariant
                    sweep_step(*old(self), *self, Seq::empty(), out@, len as int),
                    forall|m: int|
                        0 <= m < out@.len() ==> sol_tuple_ok(
                            #[trigger] out@[m],
                            *old(self),
                            len as int,
                        ),
                decreases s_list@.len() - si,
            {
                let c_min = if self.min_clen > 3 {
                    self.min_clen
                } else {
                    3
                };
                let c_max = if self.max_clen < len - slen - 9 {
                    self.max_clen
                } else {
                    len - slen - 9
                };
                if c_min <= c_max {
                    let mut clen = c_min;
                    while clen <= c_max
                        invariant
                            c_min <= clen,
                            sweep_step(*old(self), *self, Seq::empty(), out@, len as int),
                            forall|m: int|
                                0 <= m < out@.len() ==> sol_tuple_ok(
                                    #[trigger] out@[m],
                                    *old(self),
                                    len as int,
                                ),
                        decreases c_max - clen + 1,
                    {
                        let c_list = c_list_gen(clen);
                        let mut ci: usize = 0;
                        while ci < c_list.len()
                            invariant
                                sweep_step(*old(self), *self, Seq::empty(), out@, len as int),
                                forall|m: int|
                                    0 <= m < out@.len() ==> sol_tuple_ok(
                                        #[trigger] out@[m],
                                        *old(self),
                                        len as int,
                                    ),
                            decreases c_list@.len() - ci,
                        {
                            let remaining = len - slen - clen - 9;
                            if remaining >= 0 {
                                let mut klen: i32 = 0;
                                while klen <= remaining
                                    invariant
                                        0 <= klen,
                                        sweep_step(
                                            *old(self),
                                            *self,
                                            Seq::empty(),
                                            out@,
                                            len as int,
                                        ),
                                        forall|m: int|
                                            0 <= m < out@.len() ==> sol_tuple_ok(
                                                #[trigger] out@[m],
                                                *old(self),
                                                len as int,
                                            ),
                                    decreases remaining - klen + 1,
                                {
                                    let k_list = k_list_gen(klen);
                                    let mut ki: usize = 0;
                                    while ki < k_list.len()
                                        invariant
                                            sweep_step(
                                                *old(self),
                                                *self,
                                                Seq::empty(),
                                                out@,
                                                len as int,
                                            ),
                                            forall|m: int|
                                                0 <= m < out@.len() ==> sol_tuple_ok(
                                                    #[trigger] out@[m],
                                                    *old(self),
                                                    len as int,
                                                ),
                                        decreases k_list@.len() - ki,
                                    {
                                        let j_remaining = len - slen - clen - klen - 7;
                                        if j_remaining >= 2 {
                                            let mut jlen: i32 = 2;
                                            while jlen <= j_remaining
                                                invariant
                                                    2 <= jlen,
                                                    sweep_step(
                                                        *old(self),
                                                        *self,
                                                        Seq::empty(),
                                                        out@,
                                                        len as int,
                                                    ),
                                                    forall|m: int|
                                                        0 <= m < out@.len() ==> sol_tuple_ok(
                                                            #[trigger] out@[m],
                                                            *old(self),
                                                            len as int,
                                                        ),
                                                decreases j_remaining - jlen + 1,
                                            {
                                                let j_list = j_list_gen(jlen);
                                                let mut ji: usize = 0;
                                                while ji < j_list.len()
                                                    invariant
                                                        sweep_step(
                                                            *old(self),
                                                            *self,
                                                            Seq::empty(),
                                                            out@,
                                                            len as int,
                                                        ),
                                                        forall|m: int|
                                                            0 <= m < out@.len()
                                                                ==> sol_tuple_ok(
                                                                #[trigger] out@[m],
                                                                *old(self),
                                                                len as int,
                                                            ),
                                                    decreases j_list@.len() - ji,
                                                {
                                                    let hlen = len - slen - clen - klen - jlen
                                                        - 7;
                                                    proof {
                                                        assert forall|kk: int|
                                                            0 <= kk < s_list@[si as int]@.len()
                                                                implies -0x0100_0000
                                                            <= #[trigger] s_list@[si as int]@[kk]
                                                            <= 0x0100_0000 by {
                                                            lemma_s_cost_elem_bounds(
                                                                s_list@[si as int]@,
                                                                kk,
                                                            );
                                                        }
                                                        lemma_s_cost_len(s_list@[si as int]@);
                                                        lemma_c_cost_len(
                                                            c_list@[ci as int]@,
                                                            true,
                                                        );
                                                    }
                                                    let ghost mid1 = *self;
                                                    let ghost out1 = out@;
                                                    if hlen > 0 {
                                                        let hneg = -hlen;
                                                        self.consider(
                                                            len,
                                                            &s_list[si],
                                                            &c_list[ci],
                                                            &k_list[ki],
                                                            &j_list[ji],
                                                            hneg,
                                                            &mut out,
                                                        );
                                                        proof {
                                                            lemma_sweep_step_trans(
                                                                *old(self),
                                                                mid1,
                                                                *self,
                                                                Seq::empty(),
                                                                out1,
                                                                out@,
                                                                len as int,
                                                            );
                                                            assert forall|m: int|
                                                                out1.len() <= m < out@.len()
                                                                implies sol_tuple_ok(
                                                                #[trigger] out@[m],
                                                                *old(self),
                                                                len as int,
                                                            ) by {
                                                                assert(tuple_witness(
                                                                    out@[m],
                                                                    *old(self),
                                                                    len as int,
                                                                    s_list@[si as int]@,
                                                                    c_list@[ci as int]@,
                                                                    k_list@[ki as int]@,
                                                                    j_list@[ji as int]@,
                                                                    hneg,
                                                                ));
                                                            }
                                                        }
                                                        let ghost mid2 = *self;
                                                        let ghost out2 = out@;
                                                        self.consider(
                                                            len,
                                                            &s_list[si],
                                                            &c_list[ci],
                                                            &k_list[ki],
                                                            &j_list[ji],
                                                            hlen,
                                                            &mut out,
                                                        );
                                                        proof {
                                                            lemma_sweep_step_trans(
                                                                *old(self),
                                                                mid2,
                                                                *self,
                                                                Seq::empty(),
                                                                out2,
                                                                out@,
                                                                len as int,
                                                            );
                                                            assert forall|m: int|
                                                                out2.len() <= m < out@.len()
                                                                implies sol_tuple_ok(
                                                                #[trigger] out@[m],
                                                                *old(self),
                                                                len as int,
                                                            ) by {
                                                                assert(tuple_witness(
                                                                    out@[m],
                                                                    *old(self),
                                                                    len as int,
                                                                    s_list@[si as int]@,
                                                                    c_list@[ci as int]@,
                                                                    k_list@[ki as int]@,
                                                                    j_list@[ji as int]@,
                                                                    hlen,
                                                                ));
                                                            }
                                                        }
                                                    } else {
                                                        self.consider(
                                                            len,
                                                            &s_list[si],
                                                            &c_list[ci],
                                                            &k_list[ki],
                                                            &j_list[ji],
                                                            hlen,
                                                            &mut out,
                                                        );
                                                        proof {
                                                            lemma_sweep_step_trans(
                                                                *old(self),
                                                                mid1,
                                                                *self,
                                                                Seq::empty(),
                                                                out1,
                                                                out@,
                                                                len as int,
                                                            );
                                                            assert forall|m: int|
                                                                out1.len() <= m < out@.len()
                                                                implies sol_tuple_ok(
                                                                #[trigger] out@[m],
                                                                *old(self),
                                                                len as int,
                                                            ) by {
                                                                assert(tuple_witness(
                                                                    out@[m],
                                                                    *old(self),
                                                                    len as int,
                                                                    s_list@[si as int]@,
                                                                    c_list@[ci as int]@,
                                                                    k_list@[ki as int]@,
                                                                    j_list@[ji as int]@,
                                                                    hlen,
                                                                ));
                                                            }
                                                        }
                                                    }
                                                    ji = ji + 1;
                                                }
                                                jlen = jlen + 1;
                                            }
                                        }
                                        ki = ki + 1;
                                    }
                                    klen = klen + 1;
                                }
                            }
                            ci = ci + 1;
                        }
                        clen = clen + 1;
                    }
                }
                si = si + 1;
            }
            slen = slen + 1;
        }
        out
    }
}

} // verus!

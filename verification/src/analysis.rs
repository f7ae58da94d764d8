//! Frequency analysis of a list of unpacked configurations: per
//! configuration, how many vertices hold each digit value; and the
//! aggregation over configurations of those per-value counts.

use vstd::prelude::*;

verus! {

/// How many entries of `s` equal `value`.
pub open spec fn count_eq(s: Seq<u8>, value: u8) -> nat
    decreases s.len(),
{
    if s.len() == 0 {
        0
    } else {
        count_eq(s.drop_last(), value) + if s.last() == value {
            1nat
        } else {
            0nat
        }
    }
}

/// How many rows of `a` hold the count `target` at column `value`.
pub open spec fn count_rows(a: Seq<Seq<u32>>, value: int, target: u32) -> nat
    decreases a.len(),
{
    if a.len() == 0 {
        0
    } else {
        count_rows(a.drop_last(), value, target) + if a.last()[value] == target {
            1nat
        } else {
            0nat
        }
    }
}

proof fn lemma_count_eq_bound(s: Seq<u8>, value: u8)
    ensures
        count_eq(s, value) <= s.len(),
    decreases s.len(),
{
    if s.len() > 0 {
        lemma_count_eq_bound(s.drop_last(), value);
    }
}

proof fn lemma_count_rows_bound(a: Seq<Seq<u32>>, value: int, target: u32)
    ensures
        count_rows(a, value, target) <= a.len(),
    decreases a.len(),
{
    if a.len() > 0 {
        lemma_count_rows_bound(a.drop_last(), value, target);
    }
}

/// Per configuration, a histogram of its digit values: entry `value` of row
/// `si` counts the vertices of `states[si]` holding `value`.
pub fn frequency_analysis(states: &Vec<Vec<u8>>, max: u8) -> (r: Vec<Vec<u32>>)
    requires
        forall|si: int|
            0 <= si < states@.len() ==> (#[trigger] states@[si])@.len() <= u32::MAX,
        forall|si: int, k: int|
            0 <= si < states@.len() && 0 <= k < states@[si]@.len() ==> (#[trigger] states@[si]@[k])
                <= max,
    ensures
        r@.len() == states@.len(),
        forall|si: int| 0 <= si < r@.len() ==> (#[trigger] r@[si])@.len() == max as int + 1,
        forall|si: int, value: int|
            0 <= si < r@.len() && 0 <= value <= max ==> (#[trigger] r@[si]@[value]) as nat
                == count_eq(states@[si]@, value as u8),
{
    let mut result: Vec<Vec<u32>> = Vec::new();
    let mut si: usize = 0;
    while si < states.len()
        invariant
            si <= states@.len(),
            forall|s0: int|
                0 <= s0 < states@.len() ==> (#[trigger] states@[s0])@.len() <= u32::MAX,
            forall|s0: int, k: int|
                0 <= s0 < states@.len() && 0 <= k < states@[s0]@.len() ==> (#[trigger] states@[
                    s0
                ]@[k]) <= max,
            result@.len() == si,
            forall|s0: int|
                0 <= s0 < result@.len() ==> (#[trigger] result@[s0])@.len() == max as int + 1,
            forall|s0: int, value: int|
                0 <= s0 < result@.len() && 0 <= value <= max ==> (#[trigger] result@[s0]@[
                    value
                ]) as nat == count_eq(states@[s0]@, value as u8),
        decreases states@.len() - si,
    {
        let state = &states[si];
        let mut count: Vec<u32> = Vec::new();
        let mut z: usize = 0;
        while z < (max as usize) + 1
            invariant
                z <= max as int + 1,
                count@.len() == z,
                forall|value: int| 0 <= value < z ==> (#[trigger] count@[value]) == 0u32,
            decreases max as int + 1 - z,
        {
            count.push(0);
            z = z + 1;
        }
        proof {
            assert forall|value: u8| value <= max implies count_eq(
                states@[si as int]@.take(0),
                value,
            ) == 0 by {
                assert(states@[si as int]@.take(0) =~= Seq::<u8>::empty());
            }
        }
        let mut node: usize = 0;
        while node < state.len()
            invariant
                state@ == states@[si as int]@,
                si < states@.len(),
                node <= state@.len(),
                state@.len() <= u32::MAX,
                forall|k: int| 0 <= k < state@.len() ==> (#[trigger] state@[k]) <= max,
                count@.len() == max as int + 1,
                forall|value: int|
                    0 <= value <= max ==> (#[trigger] count@[value]) as nat == count_eq(
                        state@.take(node as int),
                        value as u8,
                    ),
            decreases state@.len() - node,
        {
            let d = state[node];
            proof {
                lemma_count_eq_bound(state@.take(node as int), d);
                assert(state@.take(node as int).len() <= state@.len());
            }
            let old_count = count[d as usize];
            count[d as usize] = old_count + 1;
            node = node + 1;
            proof {
                assert forall|value: int|
                    0 <= value <= max implies (#[trigger] count@[value]) as nat == count_eq(
                    state@.take(node as int),
                    value as u8,
                ) by {
                    assert(state@.take(node as int).drop_last() =~= state@.take(node as int - 1));
                    assert(state@.take(node as int).last() == state@[node as int - 1]);
                }
            }
        }
        proof {
            assert(state@.take(state@.len() as int) =~= state@);
        }
        result.push(count);
        si = si + 1;
    }
    result
}

/// Aggregate the per-configuration histograms: entry `[value][target]` of
/// the result counts the configurations in which exactly `target` vertices
/// hold the digit `value`.
pub fn parse_analysis(analysis: Vec<Vec<u32>>, max: u8, node_count: u8) -> (r: Vec<Vec<u32>>)
    requires
        analysis@.len() <= u32::MAX,
        forall|si: int|
            0 <= si < analysis@.len() ==> (#[trigger] analysis@[si])@.len() == max as int + 1,
        forall|si: int, value: int|
            0 <= si < analysis@.len() && 0 <= value <= max ==> (#[trigger] analysis@[si]@[value])
                <= node_count as u32,
    ensures
        r@.len() == max as int + 1,
        forall|value: int|
            0 <= value <= max ==> (#[trigger] r@[value])@.len() == node_count as int + 1,
        forall|value: int, target: int|
            0 <= value <= max && 0 <= target <= node_count ==> (#[trigger] r@[value]@[
                target
            ]) as nat == count_rows(
                analysis@.map_values(|row: Vec<u32>| row@),
                value,
                target as u32,
            ),
{
    let ghost rows = analysis@.map_values(|row: Vec<u32>| row@);
    let mut result: Vec<Vec<u32>> = Vec::new();
    let mut value: usize = 0;
    while value < (max as usize) + 1
        invariant
            rows == analysis@.map_values(|row: Vec<u32>| row@),
            analysis@.len() <= u32::MAX,
            forall|si: int|
                0 <= si < analysis@.len() ==> (#[trigger] analysis@[si])@.len() == max as int + 1,
            forall|si: int, v0: int|
                0 <= si < analysis@.len() && 0 <= v0 <= max ==> (#[trigger] analysis@[si]@[v0])
                    <= node_count as u32,
            value <= max as int + 1,
            result@.len() == value,
            forall|v0: int|
                0 <= v0 < result@.len() ==> (#[trigger] result@[v0])@.len() == node_count as int
                    + 1,
            forall|v0: int, target: int|
                0 <= v0 < result@.len() && 0 <= target <= node_count ==> (#[trigger] result@[v0]@[
                    target
                ]) as nat == count_rows(rows, v0, target as u32),
        decreases max as int + 1 - value,
    {
        let mut row: Vec<u32> = Vec::new();
        let mut z: usize = 0;
        while z < (node_count as usize) + 1
            invariant
                z <= node_count as int + 1,
                row@.len() == z,
                forall|t0: int| 0 <= t0 < z ==> (#[trigger] row@[t0]) == 0u32,
            decreases node_count as int + 1 - z,
        {
            row.push(0);
            z = z + 1;
        }
        proof {
            assert forall|target: u32| target <= node_count implies count_rows(
                rows.take(0),
                value as int,
                target,
            ) == 0 by {
                assert(rows.take(0) =~= Seq::<Seq<u32>>::empty());
            }
        }
        let mut si: usize = 0;
        while si < analysis.len()
            invariant
                rows == analysis@.map_values(|row0: Vec<u32>| row0@),
                analysis@.len() <= u32::MAX,
                forall|s0: int|
                    0 <= s0 < analysis@.len() ==> (#[trigger] analysis@[s0])@.len() == max as int
                        + 1,
                forall|s0: int, v0: int|
                    0 <= s0 < analysis@.len() && 0 <= v0 <= max ==> (#[trigger] analysis@[s0]@[v0])
                        <= node_count as u32,
                value <= max,
                si <= analysis@.len(),
                row@.len() == node_count as int + 1,
                forall|target: int|
                    0 <= target <= node_count ==> (#[trigger] row@[target]) as nat == count_rows(
                        rows.take(si as int),
                        value as int,
                        target as u32,
                    ),
            decreases analysis@.len() - si,
        {
            let target = analysis[si][value];
            proof {
                assert(rows[si as int] == analysis@[si as int]@);
                lemma_count_rows_bound(rows.take(si as int), value as int, target);
                assert(rows.take(si as int).len() <= rows.len());
            }
            let old_count = row[target as usize];
            row[target as usize] = old_count + 1;
            si = si + 1;
            proof {
                assert forall|t0: int|
                    0 <= t0 <= node_count implies (#[trigger] row@[t0]) as nat == count_rows(
                    rows.take(si as int),
                    value as int,
                    t0 as u32,
                ) by {
                    assert(rows.take(si as int).drop_last() =~= rows.take(si as int - 1));
                    assert(rows.take(si as int).last() == rows[si as int - 1]);
                    assert(rows[si as int - 1] == analysis@[si as int - 1]@);
                }
            }
        }
        proof {
            assert(rows.take(rows.len() as int) =~= rows);
        }
        result.push(row);
        value = value + 1;
    }
    result
}

} // verus!

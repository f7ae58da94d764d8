//! Reachability over the implicit state graph induced by the splash move:
//! a depth-first flood fill whose work stack holds `(state, move cursor)`
//! pairs, the cursor enumerating the `2N` candidate moves of a state
//! lazily — cursor `c` encodes center `c/2` and direction `-1` when `c` is
//! even, `+1` when odd.  The contract is the set of reached states;
//! visitation order is unspecified.

use vstd::prelude::*;

verus! {

use crate::codec::state_wf;
use crate::codec::width;
use crate::codec::lemma_fits_capacity;
use crate::extmap::map_contains;
use crate::extmap::map_entries;
use crate::extmap::map_insert;
use crate::extmap::map_new;
use crate::splash::splash;
use crate::splash::splash_rejects;
use crate::splash::splash_target;
use crate::splash::lemma_splash_target_digits;
use crate::splash::lemma_splash_reversible;
use crate::table::NeighborTable;
use crate::table::adj_wf;
use vstd::arithmetic::power2::pow2;
use vstd::set_lib::set_int_range;
use vstd::set_lib::lemma_int_range;
use vstd::set_lib::lemma_len_subset;

/// A splash at `center` is applicable: always in clamping mode, only when
/// not rejected in strict mode.
pub open spec fn splash_ok(
    adj: Seq<Seq<usize>>,
    base: nat,
    s: nat,
    center: int,
    up: bool,
    clamp: bool,
) -> bool {
    clamp || !splash_rejects(adj, base, s, center, up)
}

/// One applicable splash leads from `s` to `t`.
pub open spec fn splash_edge(adj: Seq<Seq<usize>>, base: nat, clamp: bool, s: nat, t: nat) -> bool {
    exists|center: int, up: bool|
        0 <= center < adj.len() && splash_ok(adj, base, s, center, up, clamp) && t
            == splash_target(adj, base, s, center, up)
}

/// `t` is reachable from `s` by at most `n` applicable splashes.
pub open spec fn reachable_in(
    adj: Seq<Seq<usize>>,
    base: nat,
    clamp: bool,
    s: nat,
    t: nat,
    n: nat,
) -> bool
    decreases n,
{
    if n == 0 {
        t == s
    } else {
        reachable_in(adj, base, clamp, s, t, (n - 1) as nat) || exists|m: nat|
            reachable_in(adj, base, clamp, s, m, (n - 1) as nat) && splash_edge(
                adj,
                base,
                clamp,
                m,
                t,
            )
    }
}

/// `t` is reachable from `s` by some number of applicable splashes.
pub open spec fn reachable(adj: Seq<Seq<usize>>, base: nat, clamp: bool, s: nat, t: nat) -> bool {
    exists|n: nat| reachable_in(adj, base, clamp, s, t, n)
}

pub proof fn lemma_reachable_refl(adj: Seq<Seq<usize>>, base: nat, clamp: bool, s: nat)
    ensures
        reachable(adj, base, clamp, s, s),
{
    assert(reachable_in(adj, base, clamp, s, s, 0));
}

pub proof fn lemma_reachable_step(
    adj: Seq<Seq<usize>>,
    base: nat,
    clamp: bool,
    s: nat,
    m: nat,
    t: nat,
)
    requires
        reachable(adj, base, clamp, s, m),
        splash_edge(adj, base, clamp, m, t),
    ensures
        reachable(adj, base, clamp, s, t),
{
    let n = choose|n: nat| reachable_in(adj, base, clamp, s, m, n);
    assert(reachable_in(adj, base, clamp, s, t, n + 1));
}

pub proof fn lemma_reachable_trans(
    adj: Seq<Seq<usize>>,
    base: nat,
    clamp: bool,
    a: nat,
    b: nat,
    c: nat,
)
    requires
        reachable(adj, base, clamp, a, b),
        reachable(adj, base, clamp, b, c),
    ensures
        reachable(adj, base, clamp, a, c),
{
    let n = choose|n: nat| reachable_in(adj, base, clamp, b, c, n);
    lemma_reachable_trans_in(adj, base, clamp, a, b, c, n);
}

proof fn lemma_reachable_trans_in(
    adj: Seq<Seq<usize>>,
    base: nat,
    clamp: bool,
    a: nat,
    b: nat,
    c: nat,
    n: nat,
)
    requires
        reachable(adj, base, clamp, a, b),
        reachable_in(adj, base, clamp, b, c, n),
    ensures
        reachable(adj, base, clamp, a, c),
    decreases n,
{
    if n == 0 {
    } else {
        if reachable_in(adj, base, clamp, b, c, (n - 1) as nat) {
            lemma_reachable_trans_in(adj, base, clamp, a, b, c, (n - 1) as nat);
        } else {
            let m = choose|m: nat|
                reachable_in(adj, base, clamp, b, m, (n - 1) as nat) && splash_edge(
                    adj,
                    base,
                    clamp,
                    m,
                    c,
                );
            lemma_reachable_trans_in(adj, base, clamp, a, b, m, (n - 1) as nat);
            lemma_reachable_step(adj, base, clamp, a, m, c);
        }
    }
}

/// An applicable splash leads from a well-formed configuration to a
/// well-formed configuration.
pub proof fn lemma_edge_wf(adj: Seq<Seq<usize>>, base: nat, clamp: bool, s: nat, t: nat)
    requires
        base >= 1,
        state_wf(s, base, adj.len()),
        splash_edge(adj, base, clamp, s, t),
    ensures
        state_wf(t, base, adj.len()),
{
    let (center, up) = choose|center: int, up: bool|
        0 <= center < adj.len() && splash_ok(adj, base, s, center, up, clamp) && t == splash_target(
            adj,
            base,
            s,
            center,
            up,
        );
    lemma_splash_target_digits(adj, base, s, center, up);
}

/// Everything reachable from a well-formed configuration is well formed.
pub proof fn lemma_reachable_wf(adj: Seq<Seq<usize>>, base: nat, clamp: bool, s: nat, t: nat)
    requires
        base >= 1,
        state_wf(s, base, adj.len()),
        reachable(adj, base, clamp, s, t),
    ensures
        state_wf(t, base, adj.len()),
{
    let n = choose|n: nat| reachable_in(adj, base, clamp, s, t, n);
    lemma_reachable_wf_in(adj, base, clamp, s, t, n);
}

proof fn lemma_reachable_wf_in(adj: Seq<Seq<usize>>, base: nat, clamp: bool, s: nat, t: nat, n: nat)
    requires
        base >= 1,
        state_wf(s, base, adj.len()),
        reachable_in(adj, base, clamp, s, t, n),
    ensures
        state_wf(t, base, adj.len()),
    decreases n,
{
    if n == 0 {
    } else {
        if reachable_in(adj, base, clamp, s, t, (n - 1) as nat) {
            lemma_reachable_wf_in(adj, base, clamp, s, t, (n - 1) as nat);
        } else {
            let m = choose|m: nat|
                reachable_in(adj, base, clamp, s, m, (n - 1) as nat) && splash_edge(
                    adj,
                    base,
                    clamp,
                    m,
                    t,
                );
            lemma_reachable_wf_in(adj, base, clamp, s, m, (n - 1) as nat);
            lemma_edge_wf(adj, base, clamp, m, t);
        }
    }
}

/// Strict splash edges can be walked backwards.
pub proof fn lemma_edge_sym(adj: Seq<Seq<usize>>, base: nat, s: nat, t: nat)
    requires
        base >= 1,
        state_wf(s, base, adj.len()),
        splash_edge(adj, base, false, s, t),
    ensures
        splash_edge(adj, base, false, t, s),
{
    let (center, up) = choose|center: int, up: bool|
        0 <= center < adj.len() && splash_ok(adj, base, s, center, up, false) && t == splash_target(
            adj,
            base,
            s,
            center,
            up,
        );
    lemma_splash_reversible(adj, base, s, center, up);
    assert(splash_ok(adj, base, t, center, !up, false) && s == splash_target(
        adj,
        base,
        t,
        center,
        !up,
    ));
}

/// Strict reachability is symmetric: each step is reversible, so a whole
/// path can be walked backwards.
pub proof fn lemma_reachable_sym(adj: Seq<Seq<usize>>, base: nat, s: nat, t: nat)
    requires
        base >= 1,
        state_wf(s, base, adj.len()),
        reachable(adj, base, false, s, t),
    ensures
        reachable(adj, base, false, t, s),
{
    let n = choose|n: nat| reachable_in(adj, base, false, s, t, n);
    lemma_reachable_sym_in(adj, base, s, t, n);
}

proof fn lemma_reachable_sym_in(adj: Seq<Seq<usize>>, base: nat, s: nat, t: nat, n: nat)
    requires
        base >= 1,
        state_wf(s, base, adj.len()),
        reachable_in(adj, base, false, s, t, n),
    ensures
        reachable(adj, base, false, t, s),
    decreases n,
{
    if n == 0 {
        lemma_reachable_refl(adj, base, false, t);
    } else {
        if reachable_in(adj, base, false, s, t, (n - 1) as nat) {
            lemma_reachable_sym_in(adj, base, s, t, (n - 1) as nat);
        } else {
            let m = choose|m: nat|
                reachable_in(adj, base, false, s, m, (n - 1) as nat) && splash_edge(
                    adj,
                    base,
                    false,
                    m,
                    t,
                );
            lemma_reachable_sym_in(adj, base, s, m, (n - 1) as nat);
            assert(reachable(adj, base, false, s, m));
            lemma_reachable_wf_in(adj, base, false, s, m, (n - 1) as nat);
            lemma_edge_sym(adj, base, m, t);
            lemma_reachable_refl(adj, base, false, t);
            lemma_reachable_step(adj, base, false, t, t, m);
            lemma_reachable_trans(adj, base, false, t, m, s);
        }
    }
}

/// A move of the cursor enumeration is settled with respect to a seen list:
/// it is inapplicable, or its target is already listed.
pub open spec fn move_covered(
    adj: Seq<Seq<usize>>,
    base: nat,
    clamp: bool,
    seen: Seq<u128>,
    s: u128,
    c: int,
) -> bool {
    !splash_ok(adj, base, s as nat, c / 2, c % 2 == 1, clamp) || (exists|j: int|
        0 <= j < seen.len() && (#[trigger] seen[j]) as nat == splash_target(
            adj,
            base,
            s as nat,
            c / 2,
            c % 2 == 1,
        ))
}

/// A list that is closed under applicable splashes holds everything
/// reachable from any of its members.
proof fn lemma_closed_covers(
    adj: Seq<Seq<usize>>,
    base: nat,
    clamp: bool,
    seen: Seq<u128>,
    start: u128,
    t: nat,
    n: nat,
)
    requires
        seen.contains(start),
        forall|i: int, u: nat|
            0 <= i < seen.len() && #[trigger] splash_edge(adj, base, clamp, seen[i] as nat, u)
                ==> exists|j: int| 0 <= j < seen.len() && (#[trigger] seen[j]) as nat == u,
        reachable_in(adj, base, clamp, start as nat, t, n),
    ensures
        exists|j: int| 0 <= j < seen.len() && (#[trigger] seen[j]) as nat == t,
    decreases n,
{
    if n == 0 {
        let i = choose|i: int| 0 <= i < seen.len() && seen[i] == start;
        assert(seen[i] as nat == t);
    } else {
        if reachable_in(adj, base, clamp, start as nat, t, (n - 1) as nat) {
            lemma_closed_covers(adj, base, clamp, seen, start, t, (n - 1) as nat);
        } else {
            let m = choose|m: nat|
                reachable_in(adj, base, clamp, start as nat, m, (n - 1) as nat) && splash_edge(
                    adj,
                    base,
                    clamp,
                    m,
                    t,
                );
            lemma_closed_covers(adj, base, clamp, seen, start, m, (n - 1) as nat);
            let i = choose|i: int| 0 <= i < seen.len() && (#[trigger] seen[i]) as nat == m;
            assert(splash_edge(adj, base, clamp, seen[i] as nat, t));
        }
    }
}

/// Remaining work on the stack: the number of cursor values still to be
/// replayed, summed over all entries.
pub open spec fn stack_weight(st: Seq<(u128, usize)>, bound: int) -> int
    decreases st.len(),
{
    if st.len() == 0 {
        0
    } else {
        stack_weight(st.drop_last(), bound) + (bound - st.last().1)
    }
}

proof fn lemma_stack_weight_nonneg(st: Seq<(u128, usize)>, bound: int)
    requires
        forall|j: int| 0 <= j < st.len() ==> (#[trigger] st[j]).1 < bound,
    ensures
        stack_weight(st, bound) >= 0,
    decreases st.len(),
{
    if st.len() > 0 {
        lemma_stack_weight_nonneg(st.drop_last(), bound);
    }
}

proof fn lemma_stack_weight_push(st: Seq<(u128, usize)>, e: (u128, usize), bound: int)
    ensures
        stack_weight(st.push(e), bound) == stack_weight(st, bound) + (bound - e.1),
{
    assert(st.push(e).drop_last() =~= st);
    assert(st.push(e).last() == e);
}

/// Depth-first flood fill from `start` over the moves admitted by the
/// clamping policy.  Returns the distinct reached configurations; the
/// result holds a configuration exactly when it is reachable from `start`,
/// in an unspecified order.
pub fn flood_fill(table: &NeighborTable, base: u8, start: u128, allow_clamping: bool) -> (r: Vec<
    u128,
>)
    requires
        base >= 1,
        table@.len() >= 1,
        2 * table@.len() <= usize::MAX,
        table@.len() * width(base as nat) <= 128,
        state_wf(start as nat, base as nat, table@.len()),
    ensures
        r@.no_duplicates(),
        r@.contains(start),
        forall|i: int|
            0 <= i < r@.len() ==> state_wf((#[trigger] r@[i]) as nat, base as nat, table@.len()),
        forall|s: u128| #[trigger]
            r@.contains(s) <==> reachable(
                table@,
                base as nat,
                allow_clamping,
                start as nat,
                s as nat,
            ),
{
    proof {
        use_type_invariant(table);
    }
    let ghost adj = table@;
    let ghost b = base as nat;
    let ghost w = width(b);
    let ghost clamp = allow_clamping;
    let length = table.len();
    let two_n = 2 * length;
    let mut seen = map_new();
    let mut order: Vec<u128> = Vec::new();
    let mut stack: Vec<(u128, usize)> = Vec::new();
    map_insert(&mut seen, start, 0);
    order.push(start);
    stack.push((start, 0));
    let ghost mut seen_ints: Set<int> = Set::empty().insert(start as int);
    proof {
        lemma_reachable_refl(adj, b, clamp, start as nat);
        lemma_stack_weight_push(Seq::empty(), (start, 0), two_n as int);
        assert(order@ =~= Seq::empty().push(start));
        assert(order@[0] == start);
        assert(order@.contains(start));
        lemma_fits_capacity(start as nat, adj.len() * w);
        assert forall|s: u128| map_entries(seen).dom().contains(s) <==> order@.contains(
            s,
        ) by {
            if map_entries(seen).dom().contains(s) {
                assert(s == start);
            }
            if order@.contains(s) {
                let i = choose|i: int| 0 <= i < order@.len() && order@[i] == s;
                assert(s == start);
            }
        }
        assert forall|s: u128| order@.contains(s) <==> seen_ints.contains(s as int) by {
            if order@.contains(s) {
                let i = choose|i: int| 0 <= i < order@.len() && order@[i] == s;
                assert(s == start);
            }
            if seen_ints.contains(s as int) {
                assert(s as int == start as int);
                assert(s == start);
            }
        }
        assert(pow2(adj.len() * w) >= 1) by {
            vstd::arithmetic::power2::lemma_pow2_pos(adj.len() * w);
        }
    }
    while stack.len() != 0
        invariant
            base >= 1,
            adj == table@,
            b == base as nat,
            w == width(b),
            clamp == allow_clamping,
            adj_wf(adj),
            length == adj.len(),
            length >= 1,
            two_n == 2 * length,
            two_n <= usize::MAX,
            adj.len() * w <= 128,
            // the discovered configurations
            order@.no_duplicates(),
            order@.contains(start),
            forall|i: int|
                0 <= i < order@.len() ==> state_wf((#[trigger] order@[i]) as nat, b, adj.len()),
            forall|i: int|
                0 <= i < order@.len() ==> reachable(
                    adj,
                    b,
                    clamp,
                    start as nat,
                    (#[trigger] order@[i]) as nat,
                ),
            // the membership index mirrors the list
            forall|s: u128| map_entries(seen).dom().contains(s) <==> order@.contains(s),
            // ghost set, for counting
            seen_ints.finite(),
            seen_ints.len() == order@.len(),
            forall|s: u128| order@.contains(s) <==> seen_ints.contains(s as int),
            forall|x: int| seen_ints.contains(x) ==> 0 <= x < pow2(adj.len() * w),
            order@.len() <= pow2(adj.len() * w),
            // pending work
            forall|j: int|
                0 <= j < stack@.len() ==> order@.contains((#[trigger] stack@[j]).0) && stack@[
                    j
                ].1 < two_n,
            // every move of every discovered configuration is settled or
            // still covered by a stack entry
            forall|s: u128, c: int|
                order@.contains(s) && 0 <= c < two_n ==> (exists|j: int|
                    0 <= j < stack@.len() && (#[trigger] stack@[j]).0 == s && stack@[j].1 <= c)
                    || move_covered(adj, b, clamp, order@, s, c),
        decreases
                pow2(adj.len() * w) - order@.len(),
                stack_weight(stack@, two_n as int),
    {
        proof {
            lemma_stack_weight_nonneg(stack@, two_n as int);
        }
        let ghost stack0 = stack@;
        let ghost order0 = order@;
        let popped = stack.pop().unwrap();
        let s = popped.0;
        let c = popped.1;
        proof {
            assert(stack0[stack0.len() - 1] == popped);
            assert(stack@ =~= stack0.drop_last());
        }
        if c + 1 < two_n {
            stack.push((s, c + 1));
            proof {
                lemma_stack_weight_push(stack0.drop_last(), (s, (c + 1) as usize), two_n as int);
            }
        }
        let ghost stack1 = stack@;
        let center = c / 2;
        let delta: i8 = if c % 2 == 0 {
            -1
        } else {
            1
        };
        let ghost up = delta == 1i8;
        proof {
            assert(order0.contains(s));
            let i = choose|i: int| 0 <= i < order0.len() && order0[i] == s;
            assert(state_wf(s as nat, b, adj.len()));
            assert(center < length);
            assert(up == (c % 2 == 1));
        }
        let result = splash(table, base, s, center, delta, allow_clamping);
        match result {
            None => {
                proof {
                    // the move is inapplicable, hence settled
                    assert(move_covered(adj, b, clamp, order@, s, c as int));
                    assert forall|s2: u128, c2: int|
                        order@.contains(s2) && 0 <= c2 < two_n implies (exists|j: int|
                        0 <= j < stack@.len() && (#[trigger] stack@[j]).0 == s2 && stack@[j].1
                            <= c2) || move_covered(adj, b, clamp, order@, s2, c2) by {
                        lemma_cover_after_pop(
                            adj, b, clamp, order@, stack0, stack1, s, c as int, s2, c2, two_n as int,
                        );
                    }
                    lemma_stack_weight_nonneg(stack1, two_n as int);
                }
            },
            Some(t) => {
                proof {
                    assert(splash_ok(adj, b, s as nat, center as int, up, clamp));
                    assert(t as nat == splash_target(adj, b, s as nat, center as int, up));
                    assert(splash_edge(adj, b, clamp, s as nat, t as nat));
                    lemma_splash_target_digits(adj, b, s as nat, center as int, up);
                }
                if !map_contains(&seen, t) {
                    map_insert(&mut seen, t, order.len());
                    order.push(t);
                    stack.push((t, 0));
                    proof {
                        seen_ints = seen_ints.insert(t as int);
                        assert(!order0.contains(t));
                        assert(order@ =~= order0.push(t));
                        assert(order@.len() == order0.len() + 1);
                        lemma_stack_weight_push(stack1, (t, 0), two_n as int);
                        // the new configuration is reachable
                        lemma_reachable_step(adj, b, clamp, start as nat, s as nat, t as nat);
                        // bound: the ghost set stays within the capacity range
                        lemma_fits_capacity(t as nat, adj.len() * w);
                        assert(seen_ints <= set_int_range(0, pow2(adj.len() * w) as int)) by {
                            assert forall|x: int| seen_ints.contains(x) implies set_int_range(
                                0,
                                pow2(adj.len() * w) as int,
                            ).contains(x) by {}
                        }
                        lemma_int_range(0, pow2(adj.len() * w) as int);
                        lemma_len_subset(seen_ints, set_int_range(0, pow2(adj.len() * w) as int));
                        // coverage: the processed move now lands in the list,
                        // and the new entry covers every move of t
                        assert(order@[order@.len() - 1] == t);
                        assert(move_covered(adj, b, clamp, order@, s, c as int));
                        assert(order0.is_prefix_of(order@));
                        assert forall|s2: u128|
                            map_entries(seen).dom().contains(s2) <==> order@.contains(s2) by {
                            if s2 == t {
                                assert(order@[order@.len() - 1] == t);
                            } else {
                                if order@.contains(s2) {
                                    let i = choose|i: int|
                                        0 <= i < order@.len() && order@[i] == s2;
                                    assert(i < order0.len());
                                    assert(order0.contains(s2));
                                }
                                if order0.contains(s2) {
                                    let i = choose|i: int|
                                        0 <= i < order0.len() && order0[i] == s2;
                                    assert(order@[i] == s2);
                                }
                            }
                        }
                        assert forall|s2: u128|
                            order@.contains(s2) <==> seen_ints.contains(s2 as int) by {
                            if s2 == t {
                                assert(order@[order@.len() - 1] == t);
                            } else {
                                assert(s2 as int != t as int);
                                if order@.contains(s2) {
                                    let i = choose|i: int|
                                        0 <= i < order@.len() && order@[i] == s2;
                                    assert(i < order0.len());
                                    assert(order0.contains(s2));
                                }
                                if order0.contains(s2) {
                                    let i = choose|i: int|
                                        0 <= i < order0.len() && order0[i] == s2;
                                    assert(order@[i] == s2);
                                }
                            }
                        }
                        assert forall|s2: u128, c2: int|
                            order@.contains(s2) && 0 <= c2 < two_n implies (exists|j: int|
                            0 <= j < stack@.len() && (#[trigger] stack@[j]).0 == s2 && stack@[j].1
                                <= c2) || move_covered(adj, b, clamp, order@, s2, c2) by {
                            if s2 == t && !order0.contains(s2) {
                                assert(stack@[stack@.len() - 1] == (t, 0usize));
                            } else {
                                assert(order0.contains(s2)) by {
                                    let i = choose|i: int|
                                        0 <= i < order@.len() && order@[i] == s2;
                                    assert(i < order0.len());
                                }
                                if !(exists|j: int|
                                    0 <= j < stack0.len() && (#[trigger] stack0[j]).0 == s2
                                        && stack0[j].1 <= c2) {
                                    lemma_cover_extend(adj, b, clamp, order0, order@, s2, c2);
                                }
                                lemma_cover_after_pop(
                                    adj,
                                    b,
                                    clamp,
                                    order@,
                                    stack0,
                                    stack1,
                                    s,
                                    c as int,
                                    s2,
                                    c2,
                                    two_n as int,
                                );
                                if exists|j: int|
                                    0 <= j < stack1.len() && (#[trigger] stack1[j]).0 == s2
                                        && stack1[j].1 <= c2 {
                                    let j = choose|j: int|
                                        0 <= j < stack1.len() && (#[trigger] stack1[j]).0 == s2
                                            && stack1[j].1 <= c2;
                                    assert(stack@[j] == stack1[j]);
                                }
                            }
                        }
                    }
                } else {
                    proof {
                        assert(order@.contains(t));
                        let i = choose|i: int| 0 <= i < order@.len() && order@[i] == t;
                        assert(order@[i] as nat == splash_target(
                            adj,
                            b,
                            s as nat,
                            c as int / 2,
                            c as int % 2 == 1,
                        ));
                        assert(move_covered(adj, b, clamp, order@, s, c as int));
                        assert forall|s2: u128, c2: int|
                            order@.contains(s2) && 0 <= c2 < two_n implies (exists|j: int|
                            0 <= j < stack@.len() && (#[trigger] stack@[j]).0 == s2 && stack@[j].1
                                <= c2) || move_covered(adj, b, clamp, order@, s2, c2) by {
                            lemma_cover_after_pop(
                                adj, b, clamp, order@, stack0, stack1, s, c as int, s2, c2, two_n as int,
                            );
                        }
                        lemma_stack_weight_nonneg(stack1, two_n as int);
                    }
                }
            },
        }
    }
    proof {
        // the stack is empty, so the list is closed under applicable moves
        assert forall|i: int, u: nat|
            0 <= i < order@.len() && #[trigger] splash_edge(adj, b, clamp, order@[i] as nat, u)
                implies exists|j: int| 0 <= j < order@.len() && (#[trigger] order@[j]) as nat
            == u by {
            let s = order@[i];
            let (center, up) = choose|center: int, up: bool|
                0 <= center < adj.len() && splash_ok(adj, b, s as nat, center, up, clamp) && u
                    == splash_target(adj, b, s as nat, center, up);
            let c = 2 * center + if up {
                1int
            } else {
                0int
            };
            assert(c / 2 == center && (c % 2 == 1) == up);
            assert(0 <= c < two_n);
            assert(order@.contains(s));
            assert(move_covered(adj, b, clamp, order@, s, c));
        }
        assert forall|s: u128| #[trigger]
            order@.contains(s) implies reachable(adj, b, clamp, start as nat, s as nat) by {
            let i = choose|i: int| 0 <= i < order@.len() && order@[i] == s;
            assert(reachable(adj, b, clamp, start as nat, order@[i] as nat));
        }
        assert forall|s: u128|
            reachable(adj, b, clamp, start as nat, s as nat) implies #[trigger] order@.contains(
            s,
        ) by {
            let n = choose|n: nat| reachable_in(adj, b, clamp, start as nat, s as nat, n);
            lemma_closed_covers(adj, b, clamp, order@, start, s as nat, n);
            let j = choose|j: int| 0 <= j < order@.len() && (#[trigger] order@[j]) as nat == s as nat;
            assert(order@[j] == s);
        }
    }
    order
}

/// Coverage bookkeeping for one flood-fill step: after popping `(s, c)` and
/// re-pushing `(s, c+1)` when `c+1` is still a cursor, every pair that was
/// covered stays covered, provided move `c` of `s` is settled.
proof fn lemma_cover_after_pop(
    adj: Seq<Seq<usize>>,
    base: nat,
    clamp: bool,
    seen: Seq<u128>,
    stack0: Seq<(u128, usize)>,
    stack1: Seq<(u128, usize)>,
    s: u128,
    c: int,
    s2: u128,
    c2: int,
    bound: int,
)
    requires
        stack0.len() >= 1,
        0 < bound <= usize::MAX,
        stack0.last() == (s, c as usize),
        0 <= c < bound,
        0 <= c2 < bound,
        stack1 == if c + 1 < bound {
            stack0.drop_last().push((s, (c + 1) as usize))
        } else {
            stack0.drop_last()
        },
        move_covered(adj, base, clamp, seen, s, c),
        (exists|j: int|
            0 <= j < stack0.len() && (#[trigger] stack0[j]).0 == s2 && stack0[j].1 <= c2)
            || move_covered(adj, base, clamp, seen, s2, c2),
    ensures
        (exists|j: int|
            0 <= j < stack1.len() && (#[trigger] stack1[j]).0 == s2 && stack1[j].1 <= c2)
            || move_covered(adj, base, clamp, seen, s2, c2),
{
    if !move_covered(adj, base, clamp, seen, s2, c2) {
        let j = choose|j: int|
            0 <= j < stack0.len() && (#[trigger] stack0[j]).0 == s2 && stack0[j].1 <= c2;
        if j < stack0.len() - 1 {
            assert(stack1[j] == stack0[j]);
        } else {
            // the popped entry was the cover: s2 == s and c <= c2
            assert(s2 == s && c <= c2);
            if c2 == c {
                assert(move_covered(adj, base, clamp, seen, s2, c2));
            } else {
                assert(c + 1 <= c2 && c + 1 < bound);
                let j1 = stack1.len() - 1;
                assert(stack1[j1] == (s, (c + 1) as usize));
            }
        }
    }
}

/// A settled move stays settled when the seen list grows.
proof fn lemma_cover_extend(
    adj: Seq<Seq<usize>>,
    base: nat,
    clamp: bool,
    seen0: Seq<u128>,
    seen1: Seq<u128>,
    s: u128,
    c: int,
)
    requires
        move_covered(adj, base, clamp, seen0, s, c),
        seen0.is_prefix_of(seen1),
    ensures
        move_covered(adj, base, clamp, seen1, s, c),
{
    if splash_ok(adj, base, s as nat, c / 2, c % 2 == 1, clamp) {
        let j = choose|j: int|
            0 <= j < seen0.len() && (#[trigger] seen0[j]) as nat == splash_target(
                adj,
                base,
                s as nat,
                c / 2,
                c % 2 == 1,
            );
        assert(seen1[j] == seen0[j]);
    }
}

} // verus!

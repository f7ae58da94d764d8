//! The state store: exhaustive classification of every configuration of a
//! state space, and its partition into bubbles of mutually reachable
//! configurations under strictly reversible splashes.
//!
//! The valid set is what clamping splashes reach from the all-zero
//! configuration.  The complement is enumerated exhaustively — the
//! brute-force baseline this tool exists to expose — and sub-labeled by a
//! local closed-neighborhood heuristic.

use vstd::prelude::*;

verus! {

use crate::codec::cfg_value;
use crate::codec::digit_of;
use vstd::arithmetic::div_mod::lemma_basic_div;
use vstd::arithmetic::div_mod::lemma_small_mod;
use crate::codec::lemma_cfg_value_bound;
use crate::codec::lemma_cfg_value_injective;
use crate::codec::lemma_fits_capacity;
use crate::codec::pow_nat;
use crate::codec::state_wf;
use crate::codec::width;
use crate::codec::StateOps;
use crate::extmap::map_contains;
use crate::extmap::map_entries;
use crate::extmap::map_get;
use crate::extmap::map_insert;
use crate::extmap::map_new;
use crate::extmap::PackedMap;
use crate::search::flood_fill;
use crate::search::lemma_reachable_refl;
use crate::search::lemma_reachable_sym;
use crate::search::lemma_reachable_trans;
use crate::search::lemma_reachable_wf;
use crate::search::reachable;
use crate::splash::splash;
use crate::splash::splash_rejects;
use crate::splash::splash_target;
use crate::table::adj_wf;
use crate::table::in_closed_nbhd;
use crate::table::NeighborTable;
use vstd::arithmetic::power2::pow2;
use vstd::arithmetic::power2::lemma_pow2_pos;

/// The label of one configuration: reachable from zero under clamping
/// splashes, or unreachable and explained by the local saturation test, or
/// unreachable and unexplained.
#[derive(Clone, Copy, Debug, PartialEq, Eq, Structural)]
pub enum Classification {
    Valid,
    InvalidT1,
    InvalidOther,
}

/// The closed neighborhood of vertex `v` holds some vertex whose digit in
/// `s` equals `d`.
pub open spec fn nbhd_has_digit(adj: Seq<Seq<usize>>, base: nat, s: nat, v: int, d: nat) -> bool {
    exists|u: int|
        0 <= u < adj.len() && in_closed_nbhd(adj, v, u) && digit_of(s, u as nat, width(base)) == d
}

/// The local saturation test: every vertex sees, within its closed
/// neighborhood, both a zero digit and a maximal digit.
pub open spec fn t1_holds(adj: Seq<Seq<usize>>, base: nat, s: nat) -> bool {
    forall|v: int|
        0 <= v < adj.len() ==> #[trigger] nbhd_has_digit(adj, base, s, v, 0) && nbhd_has_digit(
            adj,
            base,
            s,
            v,
            (base - 1) as nat,
        )
}

/// A configuration is valid when clamping splashes reach it from zero.
pub open spec fn valid_state(adj: Seq<Seq<usize>>, base: nat, s: nat) -> bool {
    reachable(adj, base, true, 0, s)
}

/// The label a configuration ought to carry.
pub open spec fn classification_of(adj: Seq<Seq<usize>>, base: nat, s: nat) -> Classification {
    if valid_state(adj, base, s) {
        Classification::Valid
    } else if t1_holds(adj, base, s) {
        Classification::InvalidT1
    } else {
        Classification::InvalidOther
    }
}

/// A configuration from which no strict splash leads anywhere else.
pub open spec fn singleton_state(adj: Seq<Seq<usize>>, base: nat, s: nat) -> bool {
    forall|t: nat| #[trigger] reachable(adj, base, false, s, t) ==> t == s
}

/// Evaluate the local saturation test on one packed configuration.
fn is_invalid_theorem_1(table: &NeighborTable, base: u8, state: u128) -> (r: bool)
    requires
        base >= 1,
        table@.len() * width(base as nat) <= 128,
    ensures
        r == t1_holds(table@, base as nat, state as nat),
{
    proof {
        use_type_invariant(table);
    }
    let ghost adj = table@;
    let ghost b = base as nat;
    let ghost w = width(b);
    let length = table.len();
    let mut v: usize = 0;
    while v < length
        invariant
            base >= 1,
            adj == table@,
            b == base as nat,
            w == width(b),
            adj_wf(adj),
            length == adj.len(),
            adj.len() * w <= 128,
            v <= length,
            forall|v0: int|
                0 <= v0 < v ==> #[trigger] nbhd_has_digit(adj, b, state as nat, v0, 0)
                    && nbhd_has_digit(adj, b, state as nat, v0, (b - 1) as nat),
        decreases length - v,
    {
        let nb = table.neighbors(v);
        let center_digit = StateOps::get(state, v, base, length);
        let mut has_zero = center_digit == 0;
        let mut has_max = center_digit == base - 1;
        proof {
            assert(in_closed_nbhd(adj, v as int, v as int));
        }
        let mut k: usize = 0;
        while k < nb.len() && !(has_zero && has_max)
            invariant
                base >= 1,
                adj == table@,
                b == base as nat,
                w == width(b),
                adj_wf(adj),
                length == adj.len(),
                adj.len() * w <= 128,
                v < length,
                nb@ == adj[v as int],
                k <= nb@.len(),
                has_zero ==> nbhd_has_digit(adj, b, state as nat, v as int, 0),
                has_max ==> nbhd_has_digit(adj, b, state as nat, v as int, (b - 1) as nat),
                !has_zero ==> digit_of(state as nat, v as nat, w) != 0 && forall|j: int|
                    0 <= j < k ==> digit_of(state as nat, (#[trigger] nb@[j]) as nat, w) != 0,
                !has_max ==> digit_of(state as nat, v as nat, w) != b - 1 && forall|j: int|
                    0 <= j < k ==> digit_of(state as nat, (#[trigger] nb@[j]) as nat, w) != b - 1,
            decreases nb@.len() - k,
        {
            let u = nb[k];
            proof {
                assert(nb@[k as int] == adj[v as int][k as int]);
                assert(u < adj.len());
                assert(in_closed_nbhd(adj, v as int, u as int));
            }
            let d = StateOps::get(state, u, base, length);
            if d == 0 {
                has_zero = true;
            }
            if d == base - 1 {
                has_max = true;
            }
            k = k + 1;
        }
        if !(has_zero && has_max) {
            proof {
                assert(k == nb@.len());
                // some digit of the closed neighborhood is missing: the test
                // fails at vertex v
                if !has_zero {
                    assert(!nbhd_has_digit(adj, b, state as nat, v as int, 0)) by {
                        if nbhd_has_digit(adj, b, state as nat, v as int, 0) {
                            let u = choose|u: int|
                                0 <= u < adj.len() && in_closed_nbhd(adj, v as int, u) && digit_of(
                                    state as nat,
                                    u as nat,
                                    w,
                                ) == 0;
                            if u != v as int {
                                let j = choose|j: int|
                                    0 <= j < adj[v as int].len() && adj[v as int][j] as int == u;
                                assert(nb@[j] as int == u);
                            }
                        }
                    }
                } else {
                    assert(!nbhd_has_digit(adj, b, state as nat, v as int, (b - 1) as nat)) by {
                        if nbhd_has_digit(adj, b, state as nat, v as int, (b - 1) as nat) {
                            let u = choose|u: int|
                                0 <= u < adj.len() && in_closed_nbhd(adj, v as int, u) && digit_of(
                                    state as nat,
                                    u as nat,
                                    w,
                                ) == (b - 1) as nat;
                            if u != v as int {
                                let j = choose|j: int|
                                    0 <= j < adj[v as int].len() && adj[v as int][j] as int == u;
                                assert(nb@[j] as int == u);
                            }
                        }
                    }
                }
            }
            return false;
        }
        proof {
            assert(nbhd_has_digit(adj, b, state as nat, v as int, 0));
            assert(nbhd_has_digit(adj, b, state as nat, v as int, (b - 1) as nat));
            assert forall|v0: int|
                0 <= v0 < v + 1 implies #[trigger] nbhd_has_digit(adj, b, state as nat, v0, 0)
                && nbhd_has_digit(adj, b, state as nat, v0, (b - 1) as nat) by {
                if v0 == v as int {
                    assert(nbhd_has_digit(adj, b, state as nat, v0, 0));
                    assert(nbhd_has_digit(adj, b, state as nat, v0, (b - 1) as nat));
                }
            }
        }
        v = v + 1;
    }
    true
}

/// Per-configuration metadata: its label and its position inside the list
/// of that label.
struct Info {
    state: u128,
    class: Classification,
    class_idx: usize,
}

/// Consistency of one metadata record with the three classification lists.
spec fn info_ok(
    inf: Info,
    adj: Seq<Seq<usize>>,
    b: nat,
    valid: Seq<u128>,
    l1: Seq<u128>,
    l2: Seq<u128>,
) -> bool {
    &&& state_wf(inf.state as nat, b, adj.len())
    &&& inf.class == classification_of(adj, b, inf.state as nat)
    &&& match inf.class {
        Classification::Valid => inf.class_idx < valid.len() && valid[inf.class_idx as int]
            == inf.state,
        Classification::InvalidT1 => inf.class_idx < l1.len() && l1[inf.class_idx as int]
            == inf.state,
        Classification::InvalidOther => inf.class_idx < l2.len() && l2[inf.class_idx as int]
            == inf.state,
    }
}

/// Metadata index and lists after classification: the full description that
/// the state store's invariant relies on.
spec fn classified_ok(
    adj: Seq<Seq<usize>>,
    b: nat,
    meta: Map<u128, usize>,
    infos: Seq<Info>,
    valid: Seq<u128>,
    l1: Seq<u128>,
    l2: Seq<u128>,
) -> bool {
    &&& forall|s: u128|
        #[trigger] meta.dom().contains(s) <==> valid.contains(s) || l1.contains(s) || l2.contains(
            s,
        )
    &&& forall|s: u128|
        meta.dom().contains(s) ==> #[trigger] meta[s] < infos.len() && infos[meta[s] as int].state
            == s
    &&& forall|k: int|
        0 <= k < infos.len() ==> meta.dom().contains((#[trigger] infos[k]).state) && meta[infos[
            k
        ].state] == k && info_ok(infos[k], adj, b, valid, l1, l2)
}

/// Classify the complement of the valid set by exhaustive enumeration from
/// the zero configuration, and build the metadata index for everything.
/// The invalid lists carry exactly the unreachable well-formed
/// configurations, split by the local saturation test.
fn classify_states(table: &NeighborTable, base: u8, valid: Vec<u128>) -> (r: (
    PackedMap,
    Vec<Info>,
    Vec<u128>,
    Vec<u128>,
    Vec<u128>,
))
    requires
        base >= 1,
        table@.len() >= 1,
        table@.len() * width(base as nat) <= 128,
        valid@.no_duplicates(),
        forall|s: u128| #[trigger]
            valid@.contains(s) <==> state_wf(s as nat, base as nat, table@.len()) && valid_state(
                table@,
                base as nat,
                s as nat,
            ),
    ensures
        ({
            let (meta, infos, valid2, l1, l2) = r;
            let adj = table@;
            let b = base as nat;
            &&& valid2@ == valid@
            &&& l1@.no_duplicates()
            &&& l2@.no_duplicates()
            &&& forall|s: u128| #[trigger]
                l1@.contains(s) <==> state_wf(s as nat, b, adj.len()) && !valid_state(
                    adj,
                    b,
                    s as nat,
                ) && t1_holds(adj, b, s as nat)
            &&& forall|s: u128| #[trigger]
                l2@.contains(s) <==> state_wf(s as nat, b, adj.len()) && !valid_state(
                    adj,
                    b,
                    s as nat,
                ) && !t1_holds(adj, b, s as nat)
            &&& valid2@.len() + l1@.len() + l2@.len() == pow_nat(b, adj.len())
            &&& classified_ok(adj, b, map_entries(meta), infos@, valid2@, l1@, l2@)
        }),
{
    proof {
        use_type_invariant(table);
    }
    let ghost adj = table@;
    let ghost b = base as nat;
    let ghost w = width(b);
    let ghost n = adj.len();
    let length = table.len();
    let mut meta = map_new();
    let mut infos: Vec<Info> = Vec::new();
    let mut l1: Vec<u128> = Vec::new();
    let mut l2: Vec<u128> = Vec::new();
    // index the valid list first
    let mut i: usize = 0;
    while i < valid.len()
        invariant
            base >= 1,
            adj == table@,
            b == base as nat,
            w == width(b),
            n == adj.len(),
            i <= valid@.len(),
            valid@.no_duplicates(),
            forall|s: u128| #[trigger]
                valid@.contains(s) <==> state_wf(s as nat, b, n) && valid_state(adj, b, s as nat),
            infos@.len() == i,
            forall|s: u128|
                #[trigger] map_entries(meta).dom().contains(s) <==> exists|j: int|
                    0 <= j < i && valid@[j] == s,
            forall|s: u128|
                map_entries(meta).dom().contains(s) ==> #[trigger] map_entries(meta)[s]
                    < infos@.len() && infos@[map_entries(meta)[s] as int].state == s,
            forall|k: int|
                0 <= k < infos@.len() ==> (#[trigger] infos@[k]).state == valid@[k] && infos@[
                    k
                ].class == Classification::Valid && infos@[k].class_idx == k && map_entries(
                    meta,
                ).dom().contains(infos@[k].state) && map_entries(meta)[infos@[k].state] == k,
        decreases valid@.len() - i,
    {
        let s = valid[i];
        proof {
            assert(valid@.contains(s));
            if map_entries(meta).dom().contains(s) {
                let j = choose|j: int| 0 <= j < i && valid@[j] == s;
                assert(false);
            }
        }
        map_insert(&mut meta, s, i);
        infos.push(Info { state: s, class: Classification::Valid, class_idx: i });
        i = i + 1;
        proof {
            assert forall|s2: u128|
                #[trigger] map_entries(meta).dom().contains(s2) <==> exists|j: int|
                    0 <= j < i && valid@[j] == s2 by {
                if map_entries(meta).dom().contains(s2) {
                    if s2 == s {
                        assert(valid@[i - 1] == s2);
                    }
                }
                if exists|j: int| 0 <= j < i && valid@[j] == s2 {
                    let j = choose|j: int| 0 <= j < i && valid@[j] == s2;
                }
            }
        }
    }
    proof {
        assert forall|s: u128|
            #[trigger] map_entries(meta).dom().contains(s) <==> valid@.contains(s) by {
            if map_entries(meta).dom().contains(s) {
                let j = choose|j: int| 0 <= j < valid@.len() && valid@[j] == s;
            }
            if valid@.contains(s) {
                let j = choose|j: int| 0 <= j < valid@.len() && valid@[j] == s;
            }
        }
        assert forall|k: int|
            0 <= k < infos@.len() implies info_ok(#[trigger] infos@[k], adj, b, valid@, l1@, l2@)
            by {
            assert(valid@.contains(infos@[k].state)) by {
                assert(valid@[k] == infos@[k].state);
            }
        }
    }
    // walk the whole configuration space in counter order; anything the
    // valid search missed is invalid and gets the local test
    let mut cur: u128 = 0;
    let ghost mut v: nat = 0;
    let ghost mut valid_seen: Set<u128> = Set::empty();
    proof {
        lemma_zero_wf(b, n);
        assert(cfg_value(0, b, n) == 0) by {
            lemma_cfg_zero(b, n);
        }
        lemma_pow_nat_pos_local(b, n);
    }
    loop
        invariant_except_break
            // lists of processed invalid configurations
            forall|s: u128| #[trigger]
                l1@.contains(s) <==> state_wf(s as nat, b, n) && cfg_value(s as nat, b, n) < v
                    && !valid_state(adj, b, s as nat) && t1_holds(adj, b, s as nat),
            forall|s: u128| #[trigger]
                l2@.contains(s) <==> state_wf(s as nat, b, n) && cfg_value(s as nat, b, n) < v
                    && !valid_state(adj, b, s as nat) && !t1_holds(adj, b, s as nat),
            // processed valid configurations, for counting
            forall|s: u128| #[trigger]
                valid_seen.contains(s) <==> valid@.contains(s) && cfg_value(s as nat, b, n) < v,
            valid_seen.len() + l1@.len() + l2@.len() == v,
        invariant
            base >= 1,
            adj == table@,
            adj_wf(adj),
            b == base as nat,
            w == width(b),
            n == adj.len(),
            n >= 1,
            length == n,
            n * w <= 128,
            valid@.no_duplicates(),
            l1@.no_duplicates(),
            l2@.no_duplicates(),
            forall|s: u128| #[trigger]
                valid@.contains(s) <==> state_wf(s as nat, b, n) && valid_state(adj, b, s as nat),
            state_wf(cur as nat, b, n),
            v == cfg_value(cur as nat, b, n),
            v < pow_nat(b, n),
            valid_seen.finite(),
            // the metadata index over all three lists
            classified_ok(adj, b, map_entries(meta), infos@, valid@, l1@, l2@),
        ensures
            forall|s: u128| #[trigger]
                l1@.contains(s) <==> state_wf(s as nat, b, n) && !valid_state(adj, b, s as nat)
                    && t1_holds(adj, b, s as nat),
            forall|s: u128| #[trigger]
                l2@.contains(s) <==> state_wf(s as nat, b, n) && !valid_state(adj, b, s as nat)
                    && !t1_holds(adj, b, s as nat),
            l1@.no_duplicates(),
            l2@.no_duplicates(),
            forall|s: u128| #[trigger]
                valid_seen.contains(s) <==> valid@.contains(s),
            valid_seen.finite(),
            valid_seen.len() + l1@.len() + l2@.len() == pow_nat(b, n),
            classified_ok(adj, b, map_entries(meta), infos@, valid@, l1@, l2@),
        decreases pow_nat(b, n) - v,
    {
        let ghost l1_old = l1@;
        let ghost l2_old = l2@;
        let ghost infos_old = infos@;
        let ghost meta_old = map_entries(meta);
        if !map_contains(&meta, cur) {
            // not reached by the valid search: invalid
            proof {
                assert(!valid@.contains(cur));
                assert(!valid_state(adj, b, cur as nat));
                assert(!l1@.contains(cur) && !l2@.contains(cur));
            }
            let is_t1 = is_invalid_theorem_1(table, base, cur);
            let slot = infos.len();
            map_insert(&mut meta, cur, slot);
            let ghost inf: Info;
            if is_t1 {
                let record = Info {
                    state: cur,
                    class: Classification::InvalidT1,
                    class_idx: l1.len(),
                };
                proof {
                    inf = record;
                }
                infos.push(record);
                l1.push(cur);
            } else {
                let record = Info {
                    state: cur,
                    class: Classification::InvalidOther,
                    class_idx: l2.len(),
                };
                proof {
                    inf = record;
                }
                infos.push(record);
                l2.push(cur);
            }
            proof {
                assert(l1_old.is_prefix_of(l1@) && l2_old.is_prefix_of(l2@));
                if is_t1 {
                    assert(l1@.last() == cur && l1@.drop_last() =~= l1_old);
                } else {
                    assert(l2@.last() == cur && l2@.drop_last() =~= l2_old);
                }
                lemma_classified_extend(
                    adj,
                    b,
                    meta_old,
                    map_entries(meta),
                    infos_old,
                    infos@,
                    valid@,
                    l1_old,
                    l2_old,
                    l1@,
                    l2@,
                    inf,
                );
            }
        }
        // the processed threshold moves past cur
        proof {
            assert forall|s: u128|
                state_wf(s as nat, b, n) && cfg_value(s as nat, b, n) <= v && s != cur implies
                cfg_value(s as nat, b, n) < v by {
                if cfg_value(s as nat, b, n) == v {
                    lemma_cfg_value_injective(s as nat, cur as nat, b, n);
                }
            }
            if valid@.contains(cur) {
                assert(!valid_seen.contains(cur));
                valid_seen = valid_seen.insert(cur);
            } else {
                // cur went to one of the invalid lists just now
                if t1_holds(adj, b, cur as nat) {
                    assert(l1@.last() == cur);
                    assert(l1@.contains(cur));
                } else {
                    assert(l2@.last() == cur);
                    assert(l2@.contains(cur));
                }
            }
            // every list now reflects the processed prefix including cur
            assert forall|s: u128| #[trigger]
                l1@.contains(s) <==> state_wf(s as nat, b, n) && cfg_value(s as nat, b, n) <= v
                    && !valid_state(adj, b, s as nat) && t1_holds(adj, b, s as nat) by {
                if l1@.contains(s) && s != cur {
                    assert(l1_old.contains(s)) by {
                        let j = choose|j: int| 0 <= j < l1@.len() && l1@[j] == s;
                        if l1@ != l1_old {
                            assert(j < l1_old.len() && l1_old[j] == s);
                        }
                    }
                }
                if state_wf(s as nat, b, n) && cfg_value(s as nat, b, n) <= v && !valid_state(
                    adj,
                    b,
                    s as nat,
                ) && t1_holds(adj, b, s as nat) {
                    if s != cur {
                        assert(cfg_value(s as nat, b, n) < v);
                        assert(l1_old.contains(s));
                        let j = choose|j: int| 0 <= j < l1_old.len() && l1_old[j] == s;
                        assert(l1@[j] == s);
                    } else {
                        assert(l1@.contains(s));
                    }
                }
            }
            assert forall|s: u128| #[trigger]
                l2@.contains(s) <==> state_wf(s as nat, b, n) && cfg_value(s as nat, b, n) <= v
                    && !valid_state(adj, b, s as nat) && !t1_holds(adj, b, s as nat) by {
                if l2@.contains(s) && s != cur {
                    assert(l2_old.contains(s)) by {
                        let j = choose|j: int| 0 <= j < l2@.len() && l2@[j] == s;
                        if l2@ != l2_old {
                            assert(j < l2_old.len() && l2_old[j] == s);
                        }
                    }
                }
                if state_wf(s as nat, b, n) && cfg_value(s as nat, b, n) <= v && !valid_state(
                    adj,
                    b,
                    s as nat,
                ) && !t1_holds(adj, b, s as nat) {
                    if s != cur {
                        assert(cfg_value(s as nat, b, n) < v);
                        assert(l2_old.contains(s));
                        let j = choose|j: int| 0 <= j < l2_old.len() && l2_old[j] == s;
                        assert(l2@[j] == s);
                    } else {
                        assert(l2@.contains(s));
                    }
                }
            }
            assert forall|s: u128| #[trigger]
                valid_seen.contains(s) <==> valid@.contains(s) && cfg_value(s as nat, b, n)
                    <= v by {
                if valid_seen.contains(s) && s != cur {
                }
                if valid@.contains(s) && cfg_value(s as nat, b, n) <= v && s != cur {
                    assert(cfg_value(s as nat, b, n) < v);
                }
            }
            assert(valid_seen.len() + l1@.len() + l2@.len() == v + 1);
        }
        match StateOps::increment(cur, base, length) {
            None => {
                proof {
                    // the counter has wrapped: every well-formed
                    // configuration has value at most v and is processed
                    assert(v + 1 == pow_nat(b, n));
                    assert forall|s: u128|
                        state_wf(s as nat, b, n) implies cfg_value(s as nat, b, n) <= v by {
                        lemma_cfg_value_bound(s as nat, b, n);
                    }
                    assert forall|s: u128| #[trigger]
                        valid_seen.contains(s) <==> valid@.contains(s) by {}
                }
                break;
            },
            Some(next) => {
                proof {
                    v = v + 1;
                }
                cur = next;
            },
        }
    }
    proof {
        // the valid list is duplicate-free, so its length is the size of the
        // set of processed valid configurations
        valid@.unique_seq_to_set();
        assert(valid_seen =~= valid@.to_set());
    }
    (meta, infos, valid, l1, l2)
}

/// The zero configuration is well formed for any space.
pub proof fn lemma_zero_wf(b: nat, n: nat)
    requires
        b >= 1,
    ensures
        state_wf(0, b, n),
{
    lemma_pow2_pos(n * width(b));
    assert forall|i: nat| i < n implies digit_of(0, i, width(b)) < b by {
        lemma_pow2_pos(i * width(b));
        lemma_pow2_pos(width(b));
        lemma_basic_div(0, pow2(i * width(b)) as int);
        lemma_small_mod(0, pow2(width(b)));
    }
}

/// The zero configuration has counter value zero.
proof fn lemma_cfg_zero(b: nat, n: nat)
    ensures
        cfg_value(0, b, n) == 0,
    decreases n,
{
    if n > 0 {
        lemma_cfg_zero(b, (n - 1) as nat);
        lemma_pow2_pos(((n - 1) as nat) * width(b));
        lemma_pow2_pos(width(b));
        lemma_basic_div(0, pow2(((n - 1) as nat) * width(b)) as int);
        lemma_small_mod(0, pow2(width(b)));
        assert(digit_of(0, (n - 1) as nat, width(b)) == 0);
        assert(digit_of(0, (n - 1) as nat, width(b)) * pow_nat(b, (n - 1) as nat) == 0)
            by (nonlinear_arith)
            requires digit_of(0, (n - 1) as nat, width(b)) == 0,
        ;
    }
}

proof fn lemma_pow_nat_pos_local(b: nat, n: nat)
    requires
        b >= 1,
    ensures
        pow_nat(b, n) >= 1,
{
    crate::codec::lemma_pow_nat_pos(b, n);
}

/// The bubble list `bubble` is exactly the set of configurations strictly
/// reachable from its member `s`.
pub open spec fn bubble_exact(adj: Seq<Seq<usize>>, b: nat, bubble: Seq<u128>, s: u128) -> bool {
    forall|t: u128|
        state_wf(t as nat, b, adj.len()) ==> (#[trigger] reachable(adj, b, false, s as nat, t as nat)
            <==> bubble.contains(t))
}

/// Full description of a finished bubble partition: the two index maps hold
/// exactly the well-formed configurations and point each to its unique slot;
/// every slot points back; every bubble of a non-singleton configuration is
/// its strict-reachability component; singleton configurations sit only in
/// the final shared bucket.
spec fn bubbles_ok(
    adj: Seq<Seq<usize>>,
    b: nat,
    bov: Map<u128, usize>,
    bsv: Map<u128, usize>,
    bubbles: Seq<Vec<u128>>,
) -> bool {
    &&& forall|s: u128| #[trigger] bov.dom().contains(s) <==> state_wf(s as nat, b, adj.len())
    &&& forall|s: u128| #[trigger] bsv.dom().contains(s) <==> state_wf(s as nat, b, adj.len())
    &&& forall|s: u128|
        state_wf(s as nat, b, adj.len()) ==> (#[trigger] bov[s]) < bubbles.len() && bsv[s]
            < bubbles[bov[s] as int]@.len() && bubbles[bov[s] as int]@[bsv[s] as int] == s
    &&& forall|i: int, j: int|
        0 <= i < bubbles.len() && 0 <= j < bubbles[i]@.len() ==> state_wf(
            (#[trigger] bubbles[i]@[j]) as nat,
            b,
            adj.len(),
        ) && bov.dom().contains(bubbles[i]@[j]) && bov[bubbles[i]@[j]] == i && bsv[bubbles[i]@[j]]
            == j
    &&& forall|i: int| 0 <= i < bubbles.len() ==> (#[trigger] bubbles[i]@).len() >= 1
    &&& forall|i: int, j: int|
        0 <= i < bubbles.len() && 0 <= j < bubbles[i]@.len() && !singleton_state(
            adj,
            b,
            (#[trigger] bubbles[i]@[j]) as nat,
        ) ==> bubble_exact(adj, b, bubbles[i]@, bubbles[i]@[j])
    &&& forall|i: int, j: int|
        0 <= i < bubbles.len() && 0 <= j < bubbles[i]@.len() && singleton_state(
            adj,
            b,
            (#[trigger] bubbles[i]@[j]) as nat,
        ) ==> i == bubbles.len() - 1
}

/// Partition the whole configuration space into bubbles: walk every
/// configuration in counter order and run a strict-mode reachability search
/// from each not yet assigned one.  Components of more than one
/// configuration become bubbles as found; the lone members of all size-one
/// components accumulate into one shared bucket appended last.
fn compute_bubbles(table: &NeighborTable, base: u8) -> (r: (PackedMap, PackedMap, Vec<Vec<u128>>))
    requires
        base >= 1,
        table@.len() >= 1,
        2 * table@.len() <= usize::MAX,
        table@.len() * width(base as nat) <= 128,
    ensures
        bubbles_ok(table@, base as nat, map_entries(r.0), map_entries(r.1), r.2@),
{
    proof {
        use_type_invariant(table);
    }
    let ghost adj = table@;
    let ghost b = base as nat;
    let ghost w = width(b);
    let ghost n = adj.len();
    let length = table.len();
    let mut bo = map_new();
    let mut bs = map_new();
    let mut bubbles: Vec<Vec<u128>> = Vec::new();
    let mut singles: Vec<u128> = Vec::new();
    let mut cur: u128 = 0;
    let ghost mut v: nat = 0;
    proof {
        lemma_zero_wf(b, n);
        assert(cfg_value(0, b, n) == 0) by {
            lemma_cfg_zero(b, n);
        }
        lemma_pow_nat_pos_local(b, n);
    }
    loop
        invariant_except_break
            forall|s: u128| #[trigger]
                singles@.contains(s) <==> state_wf(s as nat, b, n) && cfg_value(s as nat, b, n) < v
                    && singleton_state(adj, b, s as nat),
            forall|s: u128|
                state_wf(s as nat, b, n) && cfg_value(s as nat, b, n) < v ==> #[trigger] map_entries(
                    bo,
                ).dom().contains(s) || singles@.contains(s),
        invariant
            base >= 1,
            adj == table@,
            adj_wf(adj),
            b == base as nat,
            w == width(b),
            n == adj.len(),
            n >= 1,
            length == n,
            2 * n <= usize::MAX,
            n * w <= 128,
            state_wf(cur as nat, b, n),
            v == cfg_value(cur as nat, b, n),
            v < pow_nat(b, n),
            // the two index maps agree and point into the found bubbles
            forall|s: u128|
                #[trigger] map_entries(bo).dom().contains(s) <==> map_entries(
                    bs,
                ).dom().contains(s),
            forall|s: u128|
                #[trigger] map_entries(bo).dom().contains(s) ==> state_wf(s as nat, b, n)
                    && map_entries(bo)[s] < bubbles@.len() && map_entries(bs)[s] < bubbles@[
                    map_entries(bo)[s] as int
                ]@.len() && bubbles@[map_entries(bo)[s] as int]@[map_entries(bs)[s] as int] == s,
            // every bubble member points back to its slot
            forall|i: int, j: int|
                0 <= i < bubbles@.len() && 0 <= j < bubbles@[i]@.len() ==> state_wf(
                    (#[trigger] bubbles@[i]@[j]) as nat,
                    b,
                    n,
                ) && map_entries(bo).dom().contains(bubbles@[i]@[j]) && map_entries(bo)[bubbles@[
                    i
                ]@[j]] == i && map_entries(bs)[bubbles@[i]@[j]] == j,
            // the found bubbles are components of more than one configuration
            forall|i: int| 0 <= i < bubbles@.len() ==> (#[trigger] bubbles@[i]@).len() >= 2,
            forall|i: int, j: int|
                0 <= i < bubbles@.len() && 0 <= j < bubbles@[i]@.len() ==> !singleton_state(
                    adj,
                    b,
                    (#[trigger] bubbles@[i]@[j]) as nat,
                ),
            forall|i: int, j: int|
                0 <= i < bubbles@.len() && 0 <= j < bubbles@[i]@.len() ==> bubble_exact(
                    adj,
                    b,
                    bubbles@[i]@,
                    (#[trigger] bubbles@[i]@[j]),
                ),
            // lone members of size-one components, in discovery order
            forall|j1: int, j2: int|
                0 <= j1 < j2 < singles@.len() ==> (#[trigger] singles@[j1]) != (
                #[trigger] singles@[j2]),
            forall|j: int|
                0 <= j < singles@.len() ==> state_wf((#[trigger] singles@[j]) as nat, b, n)
                    && singleton_state(adj, b, singles@[j] as nat) && !map_entries(
                    bo,
                ).dom().contains(singles@[j]),
        ensures
            forall|s: u128| #[trigger]
                singles@.contains(s) <==> state_wf(s as nat, b, n) && singleton_state(
                    adj,
                    b,
                    s as nat,
                ),
            forall|s: u128|
                state_wf(s as nat, b, n) ==> #[trigger] map_entries(bo).dom().contains(s)
                    || singles@.contains(s),
            forall|s: u128|
                #[trigger] map_entries(bo).dom().contains(s) <==> map_entries(
                    bs,
                ).dom().contains(s),
            forall|s: u128|
                #[trigger] map_entries(bo).dom().contains(s) ==> state_wf(s as nat, b, n)
                    && map_entries(bo)[s] < bubbles@.len() && map_entries(bs)[s] < bubbles@[
                    map_entries(bo)[s] as int
                ]@.len() && bubbles@[map_entries(bo)[s] as int]@[map_entries(bs)[s] as int] == s,
            forall|i: int, j: int|
                0 <= i < bubbles@.len() && 0 <= j < bubbles@[i]@.len() ==> state_wf(
                    (#[trigger] bubbles@[i]@[j]) as nat,
                    b,
                    n,
                ) && map_entries(bo).dom().contains(bubbles@[i]@[j]) && map_entries(bo)[bubbles@[
                    i
                ]@[j]] == i && map_entries(bs)[bubbles@[i]@[j]] == j,
            forall|i: int| 0 <= i < bubbles@.len() ==> (#[trigger] bubbles@[i]@).len() >= 2,
            forall|i: int, j: int|
                0 <= i < bubbles@.len() && 0 <= j < bubbles@[i]@.len() ==> !singleton_state(
                    adj,
                    b,
                    (#[trigger] bubbles@[i]@[j]) as nat,
                ),
            forall|i: int, j: int|
                0 <= i < bubbles@.len() && 0 <= j < bubbles@[i]@.len() ==> bubble_exact(
                    adj,
                    b,
                    bubbles@[i]@,
                    (#[trigger] bubbles@[i]@[j]),
                ),
            forall|j1: int, j2: int|
                0 <= j1 < j2 < singles@.len() ==> (#[trigger] singles@[j1]) != (
                #[trigger] singles@[j2]),
            forall|j: int|
                0 <= j < singles@.len() ==> state_wf((#[trigger] singles@[j]) as nat, b, n)
                    && singleton_state(adj, b, singles@[j] as nat) && !map_entries(
                    bo,
                ).dom().contains(singles@[j]),
        decreases pow_nat(b, n) - v,
    {
        let ghost singles_old = singles@;
        if !map_contains(&bo, cur) {
            proof {
                assert(!singles@.contains(cur));
            }
            let component = flood_fill(table, base, cur, false);
            let ghost comp = component@;
            proof {
                // members of the component are mutually reachable
                assert(comp.contains(cur));
                assert forall|j: int, t: u128|
                    0 <= j < comp.len() && state_wf(t as nat, b, n) implies (#[trigger] reachable(
                    adj,
                    b,
                    false,
                    comp[j] as nat,
                    t as nat,
                ) <==> comp.contains(t)) by {
                    assert(comp.contains(comp[j]));
                    assert(reachable(adj, b, false, cur as nat, comp[j] as nat));
                    lemma_reachable_sym(adj, b, cur as nat, comp[j] as nat);
                    if reachable(adj, b, false, comp[j] as nat, t as nat) {
                        lemma_reachable_trans(
                            adj,
                            b,
                            false,
                            cur as nat,
                            comp[j] as nat,
                            t as nat,
                        );
                    }
                    if comp.contains(t) {
                        lemma_reachable_trans(
                            adj,
                            b,
                            false,
                            comp[j] as nat,
                            cur as nat,
                            t as nat,
                        );
                    }
                }
                // no member belongs to an earlier bubble
                assert forall|j: int|
                    0 <= j < comp.len() implies !map_entries(bo).dom().contains(
                    #[trigger] comp[j],
                ) by {
                    if map_entries(bo).dom().contains(comp[j]) {
                        let i0 = map_entries(bo)[comp[j]] as int;
                        let j0 = map_entries(bs)[comp[j]] as int;
                        assert(bubbles@[i0]@[j0] == comp[j]);
                        assert(bubble_exact(adj, b, bubbles@[i0]@, comp[j]));
                        assert(reachable(adj, b, false, comp[j] as nat, cur as nat));
                        assert(bubbles@[i0]@.contains(cur));
                        let jc = choose|jc: int|
                            0 <= jc < bubbles@[i0]@.len() && bubbles@[i0]@[jc] == cur;
                        assert(map_entries(bo).dom().contains(cur));
                    }
                }
            }
            if component.len() > 1 {
                proof {
                    // with two distinct members, nobody in here is a singleton
                    assert forall|j: int|
                        0 <= j < comp.len() implies !singleton_state(
                        adj,
                        b,
                        (#[trigger] comp[j]) as nat,
                    ) by {
                        let other: int = if j == 0 {
                            1int
                        } else {
                            0int
                        };
                        assert(comp.contains(comp[other]));
                        assert(comp[other] != comp[j]);
                        assert(reachable(adj, b, false, comp[j] as nat, comp[other] as nat));
                    }
                }
                let bi = bubbles.len();
                let ghost bubbles_old = bubbles@;
                bubbles.push(component);
                let mut j: usize = 0;
                let ghost bo_before = map_entries(bo);
                while j < bubbles[bi].len()
                    invariant
                        base >= 1,
                        adj == table@,
                        b == base as nat,
                        n == adj.len(),
                        bi == bubbles_old.len(),
                        bubbles@ =~= bubbles_old.push(bubbles@[bi as int]),
                        bubbles@[bi as int]@ == comp,
                        j <= comp.len(),
                        comp.no_duplicates(),
                        comp.len() >= 2,
                        forall|j0: int|
                            0 <= j0 < comp.len() ==> state_wf((#[trigger] comp[j0]) as nat, b, n),
                        forall|j0: int, t: u128|
                            0 <= j0 < comp.len() && state_wf(t as nat, b, n) ==> (
                            #[trigger] reachable(adj, b, false, comp[j0] as nat, t as nat) <==> comp.contains(
                                t,
                            )),
                        forall|j0: int|
                            0 <= j0 < comp.len() ==> !singleton_state(
                                adj,
                                b,
                                (#[trigger] comp[j0]) as nat,
                            ),
                        forall|j0: int|
                            0 <= j0 < comp.len() ==> !bo_before.dom().contains(#[trigger] comp[j0]),
                        // assignments made so far
                        forall|s: u128|
                            #[trigger] map_entries(bo).dom().contains(s) <==> map_entries(
                                bs,
                            ).dom().contains(s),
                        forall|s: u128|
                            #[trigger] map_entries(bo).dom().contains(s) <==> bo_before.dom().contains(
                                s,
                            ) || (exists|j0: int| 0 <= j0 < j && comp[j0] == s),
                        forall|s: u128|
                            bo_before.dom().contains(s) ==> #[trigger] map_entries(bo)[s]
                                == bo_before[s] && map_entries(bs)[s] == map_entries(bs)[s],
                        forall|s: u128|
                            #[trigger] map_entries(bo).dom().contains(s) ==> state_wf(s as nat, b, n)
                                && map_entries(bo)[s] < bubbles@.len() && map_entries(bs)[s]
                                < bubbles@[map_entries(bo)[s] as int]@.len() && bubbles@[map_entries(
                                bo,
                            )[s] as int]@[map_entries(bs)[s] as int] == s,
                        forall|j0: int|
                            0 <= j0 < j ==> map_entries(bo).dom().contains(#[trigger] comp[j0])
                                && map_entries(bo)[comp[j0]] == bi && map_entries(bs)[comp[j0]]
                                == j0,
                        // earlier bubbles are untouched
                        forall|i: int, j0: int|
                            0 <= i < bubbles_old.len() && 0 <= j0 < bubbles_old[i]@.len()
                                ==> state_wf((#[trigger] bubbles_old[i]@[j0]) as nat, b, n)
                                && map_entries(bo).dom().contains(bubbles_old[i]@[j0])
                                && map_entries(bo)[bubbles_old[i]@[j0]] == i && map_entries(bs)[
                                bubbles_old[i]@[j0]
                            ] == j0,
                    decreases comp.len() - j,
                {
                    let s = bubbles[bi][j];
                    proof {
                        assert(s == comp[j as int]);
                        if map_entries(bo).dom().contains(s) {
                            let j0 = choose|j0: int| 0 <= j0 < j && comp[j0] == s;
                            assert(comp[j0] == comp[j as int]);
                            assert(false);
                        }
                    }
                    map_insert(&mut bo, s, bi);
                    map_insert(&mut bs, s, j);
                    j = j + 1;
                    proof {
                        assert forall|s2: u128|
                            #[trigger] map_entries(bo).dom().contains(s2) <==> bo_before.dom().contains(
                                s2,
                            ) || (exists|j0: int| 0 <= j0 < j && comp[j0] == s2) by {
                            if map_entries(bo).dom().contains(s2) {
                                if s2 == s {
                                    assert(comp[j - 1] == s2);
                                }
                            }
                            if exists|j0: int| 0 <= j0 < j && comp[j0] == s2 {
                                let j0 = choose|j0: int| 0 <= j0 < j && comp[j0] == s2;
                            }
                        }
                    }
                }
                proof {
                    assert(map_entries(bo).dom().contains(cur)) by {
                        let jc = choose|jc: int| 0 <= jc < comp.len() && comp[jc] == cur;
                    }
                    // the freshly assigned bubble satisfies every clause
                    assert forall|i: int, j0: int|
                        0 <= i < bubbles@.len() && 0 <= j0 < bubbles@[i]@.len() implies state_wf(
                        (#[trigger] bubbles@[i]@[j0]) as nat,
                        b,
                        n,
                    ) && map_entries(bo).dom().contains(bubbles@[i]@[j0]) && map_entries(bo)[
                        bubbles@[i]@[j0]
                    ] == i && map_entries(bs)[bubbles@[i]@[j0]] == j0 by {
                        if i < bi as int {
                            assert(bubbles@[i] == bubbles_old[i]);
                        } else {
                            assert(bubbles@[i]@[j0] == comp[j0]);
                        }
                    }
                    assert forall|i: int, j0: int|
                        0 <= i < bubbles@.len() && 0 <= j0 < bubbles@[i]@.len() implies bubble_exact(
                        adj,
                        b,
                        bubbles@[i]@,
                        (#[trigger] bubbles@[i]@[j0]),
                    ) && !singleton_state(adj, b, bubbles@[i]@[j0] as nat) by {
                        if i < bi as int {
                            assert(bubbles@[i] == bubbles_old[i]);
                        } else {
                            assert(bubbles@[i]@ == comp);
                        }
                    }
                    // newly covered configurations were not singles
                    assert forall|j0: int|
                        0 <= j0 < singles@.len() implies !map_entries(bo).dom().contains(
                        #[trigger] singles@[j0],
                    ) by {
                        if map_entries(bo).dom().contains(singles@[j0]) && !bo_before.dom().contains(
                            singles@[j0],
                        ) {
                            let jc = choose|jc: int| 0 <= jc < comp.len() && comp[jc] == singles@[j0];
                            assert(!singleton_state(adj, b, comp[jc] as nat));
                        }
                    }
                    assert(!singleton_state(adj, b, cur as nat)) by {
                        let jc = choose|jc: int| 0 <= jc < comp.len() && comp[jc] == cur;
                        assert(!singleton_state(adj, b, comp[jc] as nat));
                    }
                    assert(singles@ == singles_old);
                }
            } else {
                proof {
                    // a component of one: cur is its own bubble-of-one
                    assert(comp.len() == 1);
                    let jc = choose|jc: int| 0 <= jc < comp.len() && comp[jc] == cur;
                    assert(comp[0] == cur);
                    assert(singleton_state(adj, b, cur as nat)) by {
                        assert forall|t: nat| #[trigger]
                            reachable(adj, b, false, cur as nat, t) implies t == cur as nat by {
                            lemma_reachable_wf(adj, b, false, cur as nat, t);
                            lemma_fits_capacity(t, n * w);
                            let tu = t as u128;
                            assert(tu as nat == t);
                            assert(reachable(adj, b, false, cur as nat, tu as nat));
                            assert(comp.contains(tu));
                            let jt = choose|jt: int| 0 <= jt < comp.len() && comp[jt] == tu;
                            assert(jt == 0);
                        }
                    }
                }
                singles.push(cur);
                proof {
                    assert(singles@.last() == cur);
                    assert(singles@.contains(cur));
                    assert(singles@ =~= singles_old.push(cur));
                }
            }
        } else {
            proof {
                // already assigned: cur sits in a bubble of two or more
                let i0 = map_entries(bo)[cur] as int;
                let j0 = map_entries(bs)[cur] as int;
                assert(bubbles@[i0]@[j0] == cur);
                assert(!singleton_state(adj, b, cur as nat));
                assert(singles@ == singles_old);
            }
        }
        // the processed threshold moves past cur
        proof {
            assert forall|s: u128|
                state_wf(s as nat, b, n) && cfg_value(s as nat, b, n) <= v && s != cur implies
                cfg_value(s as nat, b, n) < v by {
                if cfg_value(s as nat, b, n) == v {
                    lemma_cfg_value_injective(s as nat, cur as nat, b, n);
                }
            }
            assert(map_entries(bo).dom().contains(cur) || singles@.contains(cur)) by {
                if !map_entries(bo).dom().contains(cur) {
                    assert(singles@.last() == cur);
                }
            }
            assert(singleton_state(adj, b, cur as nat) ==> singles@.contains(cur));
            assert(singles@ == singles_old || singles@ == singles_old.push(cur));
            assert forall|s: u128| #[trigger]
                singles@.contains(s) <==> state_wf(s as nat, b, n) && cfg_value(s as nat, b, n)
                    <= v && singleton_state(adj, b, s as nat) by {
                if singles@.contains(s) {
                    let j0 = choose|j0: int| 0 <= j0 < singles@.len() && singles@[j0] == s;
                    if s != cur {
                        assert(singles_old.contains(s)) by {
                            if singles@ != singles_old {
                                assert(j0 < singles_old.len() && singles_old[j0] == s);
                            }
                        }
                        assert(cfg_value(s as nat, b, n) < v);
                    }
                }
                if state_wf(s as nat, b, n) && cfg_value(s as nat, b, n) <= v && singleton_state(
                    adj,
                    b,
                    s as nat,
                ) {
                    if s != cur {
                        assert(cfg_value(s as nat, b, n) < v);
                        assert(singles_old.contains(s));
                        let j0 = choose|j0: int|
                            0 <= j0 < singles_old.len() && singles_old[j0] == s;
                        assert(singles@[j0] == s);
                    } else {
                        assert(singles@.contains(s));
                    }
                }
            }
            assert forall|s: u128|
                state_wf(s as nat, b, n) && cfg_value(s as nat, b, n) <= v implies
                #[trigger] map_entries(bo).dom().contains(s) || singles@.contains(s) by {
                if s != cur {
                    assert(cfg_value(s as nat, b, n) < v);
                    if singles_old.contains(s) {
                        let j0 = choose|j0: int|
                            0 <= j0 < singles_old.len() && singles_old[j0] == s;
                        assert(singles@[j0] == s);
                    }
                }
            }
        }
        match StateOps::increment(cur, base, length) {
            None => {
                proof {
                    assert(v + 1 == pow_nat(b, n));
                    assert forall|s: u128|
                        state_wf(s as nat, b, n) implies cfg_value(s as nat, b, n) <= v by {
                        lemma_cfg_value_bound(s as nat, b, n);
                    }
                }
                break;
            },
            Some(next) => {
                proof {
                    v = v + 1;
                }
                cur = next;
            },
        }
    }
    // the lone members of size-one components form one final shared bucket
    if singles.len() > 0 {
        let bi = bubbles.len();
        let ghost bubbles_old = bubbles@;
        let ghost singles_v = singles@;
        let ghost bo_before = map_entries(bo);
        bubbles.push(singles);
        let mut j: usize = 0;
        while j < bubbles[bi].len()
            invariant
                base >= 1,
                adj == table@,
                b == base as nat,
                n == adj.len(),
                bi == bubbles_old.len(),
                bubbles@ =~= bubbles_old.push(bubbles@[bi as int]),
                bubbles@[bi as int]@ == singles_v,
                j <= singles_v.len(),
                singles_v.len() >= 1,
                forall|j1: int, j2: int|
                    0 <= j1 < j2 < singles_v.len() ==> (#[trigger] singles_v[j1]) != (
                    #[trigger] singles_v[j2]),
                forall|j0: int|
                    0 <= j0 < singles_v.len() ==> state_wf(
                        (#[trigger] singles_v[j0]) as nat,
                        b,
                        n,
                    ) && singleton_state(adj, b, singles_v[j0] as nat) && !bo_before.dom().contains(
                        singles_v[j0],
                    ),
                forall|s: u128|
                    state_wf(s as nat, b, n) ==> #[trigger] bo_before.dom().contains(s)
                        || singles_v.contains(s),
                forall|s: u128|
                    #[trigger] map_entries(bo).dom().contains(s) <==> map_entries(
                        bs,
                    ).dom().contains(s),
                forall|s: u128|
                    #[trigger] map_entries(bo).dom().contains(s) <==> bo_before.dom().contains(s)
                        || (exists|j0: int| 0 <= j0 < j && singles_v[j0] == s),
                forall|s: u128|
                    bo_before.dom().contains(s) ==> #[trigger] map_entries(bo)[s] == bo_before[s],
                forall|s: u128|
                    #[trigger] map_entries(bo).dom().contains(s) ==> state_wf(s as nat, b, n)
                        && map_entries(bo)[s] < bubbles@.len() && map_entries(bs)[s] < bubbles@[
                        map_entries(bo)[s] as int
                    ]@.len() && bubbles@[map_entries(bo)[s] as int]@[map_entries(bs)[s] as int]
                        == s,
                forall|j0: int|
                    0 <= j0 < j ==> map_entries(bo).dom().contains(#[trigger] singles_v[j0])
                        && map_entries(bo)[singles_v[j0]] == bi && map_entries(bs)[singles_v[j0]]
                        == j0,
                forall|i: int, j0: int|
                    0 <= i < bubbles_old.len() && 0 <= j0 < bubbles_old[i]@.len() ==> state_wf(
                        (#[trigger] bubbles_old[i]@[j0]) as nat,
                        b,
                        n,
                    ) && map_entries(bo).dom().contains(bubbles_old[i]@[j0]) && map_entries(bo)[
                        bubbles_old[i]@[j0]
                    ] == i && map_entries(bs)[bubbles_old[i]@[j0]] == j0,
                forall|i: int| 0 <= i < bubbles_old.len() ==> (#[trigger] bubbles_old[i]@).len() >= 2,
                forall|i: int, j0: int|
                    0 <= i < bubbles_old.len() && 0 <= j0 < bubbles_old[i]@.len()
                        ==> !singleton_state(adj, b, (#[trigger] bubbles_old[i]@[j0]) as nat),
                forall|i: int, j0: int|
                    0 <= i < bubbles_old.len() && 0 <= j0 < bubbles_old[i]@.len() ==> bubble_exact(
                        adj,
                        b,
                        bubbles_old[i]@,
                        (#[trigger] bubbles_old[i]@[j0]),
                    ),
            decreases singles_v.len() - j,
        {
            let s = bubbles[bi][j];
            proof {
                assert(s == singles_v[j as int]);
                if map_entries(bo).dom().contains(s) {
                    let j0 = choose|j0: int| 0 <= j0 < j && singles_v[j0] == s;
                    assert(false);
                }
            }
            map_insert(&mut bo, s, bi);
            map_insert(&mut bs, s, j);
            j = j + 1;
            proof {
                assert forall|s2: u128|
                    #[trigger] map_entries(bo).dom().contains(s2) <==> bo_before.dom().contains(s2)
                        || (exists|j0: int| 0 <= j0 < j && singles_v[j0] == s2) by {
                    if map_entries(bo).dom().contains(s2) {
                        if s2 == s {
                            assert(singles_v[j - 1] == s2);
                        }
                    }
                    if exists|j0: int| 0 <= j0 < j && singles_v[j0] == s2 {
                        let j0 = choose|j0: int| 0 <= j0 < j && singles_v[j0] == s2;
                    }
                }
            }
        }
        proof {
            assert forall|s: u128|
                #[trigger] map_entries(bo).dom().contains(s) <==> state_wf(s as nat, b, n) by {
                if state_wf(s as nat, b, n) && !bo_before.dom().contains(s) {
                    let j0 = choose|j0: int|
                        0 <= j0 < singles_v.len() && singles_v[j0] == s;
                }
            }
            assert forall|i: int, j0: int|
                0 <= i < bubbles@.len() && 0 <= j0 < bubbles@[i]@.len() implies state_wf(
                (#[trigger] bubbles@[i]@[j0]) as nat,
                b,
                n,
            ) && map_entries(bo).dom().contains(bubbles@[i]@[j0]) && map_entries(bo)[bubbles@[
                i
            ]@[j0]] == i && map_entries(bs)[bubbles@[i]@[j0]] == j0 by {
                if i < bi as int {
                    assert(bubbles@[i] == bubbles_old[i]);
                } else {
                    assert(bubbles@[i]@[j0] == singles_v[j0]);
                }
            }
            assert forall|i: int, j0: int|
                0 <= i < bubbles@.len() && 0 <= j0 < bubbles@[i]@.len() && !singleton_state(
                    adj,
                    b,
                    (#[trigger] bubbles@[i]@[j0]) as nat,
                ) implies bubble_exact(adj, b, bubbles@[i]@, bubbles@[i]@[j0]) by {
                if i < bi as int {
                    assert(bubbles@[i] == bubbles_old[i]);
                } else {
                    assert(bubbles@[i]@[j0] == singles_v[j0]);
                }
            }
            assert forall|i: int, j0: int|
                0 <= i < bubbles@.len() && 0 <= j0 < bubbles@[i]@.len() && singleton_state(
                    adj,
                    b,
                    (#[trigger] bubbles@[i]@[j0]) as nat,
                ) implies i == bubbles@.len() - 1 by {
                if i < bi as int {
                    assert(bubbles@[i] == bubbles_old[i]);
                    assert(!singleton_state(adj, b, bubbles@[i]@[j0] as nat));
                }
            }
            assert forall|s: u128|
                #[trigger] map_entries(bs).dom().contains(s) <==> state_wf(s as nat, b, n) by {
                assert(map_entries(bs).dom().contains(s) <==> map_entries(bo).dom().contains(s));
                assert(map_entries(bo).dom().contains(s) <==> state_wf(s as nat, b, n));
            }
            assert forall|s: u128|
                state_wf(s as nat, b, n) implies (#[trigger] map_entries(bo)[s]) < bubbles@.len()
                    && map_entries(bs)[s] < bubbles@[map_entries(bo)[s] as int]@.len() && bubbles@[
                    map_entries(bo)[s] as int
                ]@[map_entries(bs)[s] as int] == s by {
                assert(map_entries(bo).dom().contains(s));
            }
            assert forall|i: int| 0 <= i < bubbles@.len() implies (#[trigger] bubbles@[i]@).len()
                >= 1 by {
                if i < bi as int {
                    assert(bubbles@[i] == bubbles_old[i]);
                }
            }
            assert(bubbles_ok(adj, b, map_entries(bo), map_entries(bs), bubbles@));
        }
    } else {
        proof {
            assert forall|s: u128|
                #[trigger] map_entries(bo).dom().contains(s) <==> state_wf(s as nat, b, n) by {
                if state_wf(s as nat, b, n) {
                    assert(map_entries(bo).dom().contains(s) || singles@.contains(s));
                    if singles@.contains(s) {
                        let j0 = choose|j0: int| 0 <= j0 < singles@.len() && singles@[j0] == s;
                        assert(false);
                    }
                }
            }
            assert forall|s: u128|
                #[trigger] map_entries(bs).dom().contains(s) <==> state_wf(s as nat, b, n) by {
                assert(map_entries(bs).dom().contains(s) <==> map_entries(bo).dom().contains(s));
                assert(map_entries(bo).dom().contains(s) <==> state_wf(s as nat, b, n));
            }
            assert forall|s: u128|
                state_wf(s as nat, b, n) implies (#[trigger] map_entries(bo)[s]) < bubbles@.len()
                    && map_entries(bs)[s] < bubbles@[map_entries(bo)[s] as int]@.len() && bubbles@[
                    map_entries(bo)[s] as int
                ]@[map_entries(bs)[s] as int] == s by {
                assert(map_entries(bo).dom().contains(s));
            }
            assert(bubbles_ok(adj, b, map_entries(bo), map_entries(bs), bubbles@));
        }
    }
    (bo, bs, bubbles)
}

/// Pushing one new record onto the metadata keeps it consistent, when the
/// record indexes the fresh last slot of its list.
proof fn lemma_classified_extend(
    adj: Seq<Seq<usize>>,
    b: nat,
    meta_old: Map<u128, usize>,
    meta: Map<u128, usize>,
    infos_old: Seq<Info>,
    infos: Seq<Info>,
    valid: Seq<u128>,
    l1_old: Seq<u128>,
    l2_old: Seq<u128>,
    l1: Seq<u128>,
    l2: Seq<u128>,
    inf: Info,
)
    requires
        classified_ok(adj, b, meta_old, infos_old, valid, l1_old, l2_old),
        !meta_old.dom().contains(inf.state),
        meta == meta_old.insert(inf.state, infos_old.len() as usize),
        infos == infos_old.push(inf),
        infos_old.len() <= usize::MAX,
        state_wf(inf.state as nat, b, adj.len()),
        inf.class == classification_of(adj, b, inf.state as nat),
        inf.class is InvalidT1 ==> l1 == l1_old.push(inf.state) && l2 == l2_old
            && inf.class_idx == l1_old.len(),
        inf.class is InvalidOther ==> l2 == l2_old.push(inf.state) && l1 == l1_old
            && inf.class_idx == l2_old.len(),
        !(inf.class is Valid),
        l1_old.is_prefix_of(l1),
        l2_old.is_prefix_of(l2),
    ensures
        classified_ok(adj, b, meta, infos, valid, l1, l2),
{
    let s0 = inf.state;
    let k0 = infos_old.len() as int;
    assert forall|s: u128|
        #[trigger] meta.dom().contains(s) <==> valid.contains(s) || l1.contains(s) || l2.contains(
            s,
        ) by {
        if s == s0 {
            if inf.class is InvalidT1 {
                assert(l1[l1.len() - 1] == s0);
                assert(l1.contains(s0));
            } else {
                assert(l2[l2.len() - 1] == s0);
                assert(l2.contains(s0));
            }
        } else {
            assert(meta.dom().contains(s) <==> meta_old.dom().contains(s));
            if l1.contains(s) && l1 != l1_old {
                let j = choose|j: int| 0 <= j < l1.len() && l1[j] == s;
                assert(j < l1_old.len() && l1_old[j] == s);
            }
            if l2.contains(s) && l2 != l2_old {
                let j = choose|j: int| 0 <= j < l2.len() && l2[j] == s;
                assert(j < l2_old.len() && l2_old[j] == s);
            }
            if l1_old.contains(s) {
                let j = choose|j: int| 0 <= j < l1_old.len() && l1_old[j] == s;
                assert(l1[j] == s);
            }
            if l2_old.contains(s) {
                let j = choose|j: int| 0 <= j < l2_old.len() && l2_old[j] == s;
                assert(l2[j] == s);
            }
        }
    }
    assert forall|s: u128|
        meta.dom().contains(s) implies #[trigger] meta[s] < infos.len() && infos[meta[
            s
        ] as int].state == s by {
        if s == s0 {
            assert(infos[k0] == inf);
        } else {
            assert(meta[s] == meta_old[s]);
            assert(infos[meta_old[s] as int] == infos_old[meta_old[s] as int]);
        }
    }
    assert forall|k: int|
        0 <= k < infos.len() implies meta.dom().contains((#[trigger] infos[k]).state) && meta[
            infos[k].state
        ] == k && info_ok(infos[k], adj, b, valid, l1, l2) by {
        if k == k0 {
            assert(infos[k] == inf);
        } else {
            assert(infos[k] == infos_old[k]);
            assert(infos_old[k].state != s0) by {
                if infos_old[k].state == s0 {
                    assert(meta_old.dom().contains(s0));
                }
            }
            assert(info_ok(infos_old[k], adj, b, valid, l1_old, l2_old));
            match infos_old[k].class {
                Classification::Valid => {},
                Classification::InvalidT1 => {
                    assert(l1[infos_old[k].class_idx as int] == l1_old[infos_old[
                        k
                    ].class_idx as int]);
                },
                Classification::InvalidOther => {
                    assert(l2[infos_old[k].class_idx as int] == l2_old[infos_old[
                        k
                    ].class_idx as int]);
                },
            }
        }
    }
}

/// Construction failed: the packed encoding of the requested space does not
/// fit the fixed 128-bit capacity.
#[derive(Clone, Copy, Debug, PartialEq, Eq, Structural)]
pub struct CapacityError;

/// The aggregate read-only result of one state-space construction:
/// classification and bubble membership for every configuration, the three
/// classification buckets, and the bubble list.
pub struct StateData {
    table: NeighborTable,
    base: u8,
    length: usize,
    meta: PackedMap,
    infos: Vec<Info>,
    valid: Vec<u128>,
    invalid_t1: Vec<u128>,
    invalid_other: Vec<u128>,
    bubble_of: PackedMap,
    bubble_slot: PackedMap,
    bubbles: Vec<Vec<u128>>,
}

impl StateData {
    /// Adjacency snapshot this space was built over.
    pub closed spec fn adj(&self) -> Seq<Seq<usize>> {
        self.table@
    }

    /// The configured base (maximum digit value plus one).
    pub closed spec fn base_spec(&self) -> nat {
        self.base as nat
    }

    /// Number of vertices.
    pub closed spec fn len_spec(&self) -> nat {
        self.length as nat
    }

    /// The bucket of one classification.
    pub closed spec fn list_seq(&self, classification: Classification) -> Seq<u128> {
        match classification {
            Classification::Valid => self.valid@,
            Classification::InvalidT1 => self.invalid_t1@,
            Classification::InvalidOther => self.invalid_other@,
        }
    }

    /// The bubble lists.
    pub closed spec fn bubbles_seq(&self) -> Seq<Seq<u128>> {
        self.bubbles@.map_values(|column: Vec<u128>| column@)
    }

    /// `state` is a well-formed configuration of this space.
    pub open spec fn holds_state(&self, state: u128) -> bool {
        state_wf(state as nat, self.base_spec(), self.len_spec())
    }

    /// Everything `new` establishes; all queries and laws rest on it.
    pub closed spec fn wf(&self) -> bool {
        let adj = self.table@;
        let b = self.base as nat;
        let n = adj.len();
        &&& self.length == n
        &&& n >= 1
        &&& self.base >= 1
        &&& 2 * n <= usize::MAX
        &&& n * width(b) <= 128
        &&& self.valid@.no_duplicates()
        &&& self.invalid_t1@.no_duplicates()
        &&& self.invalid_other@.no_duplicates()
        &&& forall|s: u128| #[trigger]
            self.valid@.contains(s) <==> state_wf(s as nat, b, n) && valid_state(adj, b, s as nat)
        &&& forall|s: u128| #[trigger]
            self.invalid_t1@.contains(s) <==> state_wf(s as nat, b, n) && !valid_state(
                adj,
                b,
                s as nat,
            ) && t1_holds(adj, b, s as nat)
        &&& forall|s: u128| #[trigger]
            self.invalid_other@.contains(s) <==> state_wf(s as nat, b, n) && !valid_state(
                adj,
                b,
                s as nat,
            ) && !t1_holds(adj, b, s as nat)
        &&& self.valid@.len() + self.invalid_t1@.len() + self.invalid_other@.len() == pow_nat(b, n)
        &&& classified_ok(
            adj,
            b,
            map_entries(self.meta),
            self.infos@,
            self.valid@,
            self.invalid_t1@,
            self.invalid_other@,
        )
        &&& bubbles_ok(
            adj,
            b,
            map_entries(self.bubble_of),
            map_entries(self.bubble_slot),
            self.bubbles@,
        )
    }

    /// Build the state space over an adjacency snapshot: run the valid-set
    /// search from zero, enumerate and classify the complement, then
    /// partition everything into bubbles.  An empty graph yields no space;
    /// a space whose packed encoding exceeds 128 bits is refused.
    pub fn new(table: NeighborTable, base: u8) -> (r: Result<Option<StateData>, CapacityError>)
        requires
            base >= 1,
            2 * table@.len() <= usize::MAX,
        ensures
            r is Err <==> table@.len() >= 1 && table@.len() * width(base as nat) > 128,
            r matches Ok(None) <==> table@.len() == 0,
            r matches Ok(Some(d)) ==> d.wf() && d.adj() == table@ && d.base_spec() == base as nat
                && d.len_spec() == table@.len(),
    {
        let ghost adj = table@;
        let ghost b = base as nat;
        let n = table.len();
        if n == 0 {
            return Ok(None);
        }
        let w = StateOps::bits_per_digit(base);
        if w > 0 && n > 128 / w {
            proof {
                let wi = width(b) as int;
                vstd::arithmetic::div_mod::lemma_fundamental_div_mod(128int, wi);
                vstd::arithmetic::div_mod::lemma_mod_bound(128int, wi);
                assert(n * width(b) > 128) by (nonlinear_arith)
                    requires
                        (n as int) > 128int / wi,
                        wi > 0,
                        128int == wi * (128int / wi) + 128int % wi,
                        0 <= 128int % wi < wi,
                        wi == width(b),
                ;
            }
            return Err(CapacityError);
        }
        proof {
            if w == 0 {
                assert(n * width(b) == 0) by (nonlinear_arith)
                    requires width(b) == 0,
                ;
            } else {
                let wi = width(b) as int;
                vstd::arithmetic::div_mod::lemma_fundamental_div_mod(128int, wi);
                vstd::arithmetic::div_mod::lemma_mod_bound(128int, wi);
                assert(n * width(b) <= 128) by (nonlinear_arith)
                    requires
                        (n as int) <= 128int / wi,
                        wi > 0,
                        128int == wi * (128int / wi) + 128int % wi,
                        0 <= 128int % wi < wi,
                        wi == width(b),
                ;
            }
            lemma_zero_wf(b, adj.len());
        }
        let found = flood_fill(&table, base, 0, true);
        let classified = classify_states(&table, base, found);
        let (meta, infos, valid, invalid_t1, invalid_other) = classified;
        let partitioned = compute_bubbles(&table, base);
        let (bubble_of, bubble_slot, bubbles) = partitioned;
        let data = StateData {
            table,
            base,
            length: n,
            meta,
            infos,
            valid,
            invalid_t1,
            invalid_other,
            bubble_of,
            bubble_slot,
            bubbles,
        };
        proof {
            assert forall|s: u128| #[trigger]
                data.valid@.contains(s) <==> state_wf(s as nat, b, adj.len()) && valid_state(
                adj,
                b,
                s as nat,
            ) by {
                if data.valid@.contains(s) {
                    assert(reachable(adj, b, true, 0, s as nat));
                    lemma_zero_wf(b, adj.len());
                    lemma_reachable_wf(adj, b, true, 0, s as nat);
                }
            }
            assert(data.wf());
        }
        Ok(Some(data))
    }

    /// Number of vertices of the space.
    pub fn length(&self) -> (r: usize)
        ensures
            r == self.len_spec(),
    {
        self.length
    }

    /// The configured base.
    pub fn base(&self) -> (r: u8)
        ensures
            r as nat == self.base_spec(),
    {
        self.base
    }

    /// The bucket of one classification, in discovery order.
    pub fn get_list(&self, classification: Classification) -> (r: &Vec<u128>)
        ensures
            r@ == self.list_seq(classification),
    {
        match classification {
            Classification::Valid => &self.valid,
            Classification::InvalidT1 => &self.invalid_t1,
            Classification::InvalidOther => &self.invalid_other,
        }
    }

    /// Whether a packed word is a configuration of this space: it fits the
    /// packed width and every digit is below the base.
    pub fn is_state(&self, state: u128) -> (r: bool)
        requires
            self.wf(),
        ensures
            r == self.holds_state(state),
    {
        let ghost b = self.base as nat;
        let ghost n = self.len_spec();
        let w = StateOps::bits_per_digit(self.base);
        let bits = self.length * w;
        if bits < 128 {
            let bound = StateOps::pow2_u128(bits);
            if state >= bound {
                return false;
            }
        } else {
            proof {
                assert(n * width(b) == 128);
                crate::codec::lemma_u128_lt_pow2_128(state);
            }
        }
        let mut i: usize = 0;
        while i < self.length
            invariant
                self.wf(),
                b == self.base as nat,
                n == self.len_spec(),
                i <= self.length,
                (state as nat) < pow2(n * width(b)),
                forall|k: nat| k < i ==> digit_of(state as nat, k, width(b)) < b,
            decreases self.length - i,
        {
            let d = StateOps::get(state, i, self.base, self.length);
            if d >= self.base {
                return false;
            }
            i = i + 1;
        }
        true
    }

    /// Unpack a configuration into its dense per-vertex digit vector.
    pub fn parse_state(&self, state: u128) -> (r: Vec<u8>)
        requires
            self.wf(),
        ensures
            r@.len() == self.len_spec(),
            forall|i: nat|
                i < self.len_spec() ==> r@[i as int] as nat == digit_of(
                    state as nat,
                    i,
                    width(self.base_spec()),
                ),
    {
        StateOps::to_vec(state, self.base, self.length)
    }

    /// Replace one vertex's digit, yielding a new configuration.
    pub fn set_packed(&self, state: u128, idx: usize, value: u8) -> (r: u128)
        requires
            self.wf(),
            self.holds_state(state),
            idx < self.len_spec(),
            (value as nat) < self.base_spec(),
        ensures
            self.holds_state(r),
            digit_of(r as nat, idx as nat, width(self.base_spec())) == value as nat,
            forall|j: nat|
                j < self.len_spec() && j != idx ==> digit_of(r as nat, j, width(self.base_spec()))
                    == digit_of(state as nat, j, width(self.base_spec())),
    {
        let r = StateOps::set(state, idx, value, self.base, self.length);
        proof {
            assert forall|j: nat|
                j < self.len_spec() implies digit_of(r as nat, j, width(self.base_spec()))
                < self.base_spec() by {
                if j != idx as nat {
                    assert(digit_of(state as nat, j, width(self.base_spec())) < self.base_spec());
                }
            }
        }
        r
    }

    /// Apply one splash move to a configuration: the closed neighborhood of
    /// `center` moves by `delta`, clamped or rejected per `allow_clamping`.
    pub fn splash_state(&self, state: u128, center: usize, delta: i8, allow_clamping: bool) -> (r:
        Option<u128>)
        requires
            self.wf(),
            self.holds_state(state),
            center < self.len_spec(),
            delta == 1i8 || delta == -1i8,
        ensures
            ({
                let up = delta == 1i8;
                &&& (r is None <==> !allow_clamping && splash_rejects(
                    self.adj(),
                    self.base_spec(),
                    state as nat,
                    center as int,
                    up,
                ))
                &&& (r matches Some(s2) ==> s2 as nat == splash_target(
                    self.adj(),
                    self.base_spec(),
                    state as nat,
                    center as int,
                    up,
                ) && self.holds_state(s2))
            }),
    {
        let r = splash(&self.table, self.base, state, center, delta, allow_clamping);
        proof {
            if r is Some {
                crate::splash::lemma_splash_target_digits(
                    self.adj(),
                    self.base_spec(),
                    state as nat,
                    center as int,
                    delta == 1i8,
                );
            }
        }
        r
    }

    /// The classification of a configuration and its index inside that
    /// classification's bucket.
    pub fn classification_data(&self, state: u128) -> (r: (Classification, usize))
        requires
            self.wf(),
            self.holds_state(state),
        ensures
            r.0 == classification_of(self.adj(), self.base_spec(), state as nat),
            r.1 < self.list_seq(r.0).len(),
            self.list_seq(r.0)[r.1 as int] == state,
    {
        proof {
            assert(map_entries(self.meta).dom().contains(state)) by {
                let adj = self.table@;
                let b = self.base as nat;
                if valid_state(adj, b, state as nat) {
                    assert(self.valid@.contains(state));
                } else if t1_holds(adj, b, state as nat) {
                    assert(self.invalid_t1@.contains(state));
                } else {
                    assert(self.invalid_other@.contains(state));
                }
            }
        }
        match map_get(&self.meta, state) {
            Some(slot) => {
                let record = &self.infos[slot];
                proof {
                    assert(info_ok(
                        self.infos@[slot as int],
                        self.table@,
                        self.base as nat,
                        self.valid@,
                        self.invalid_t1@,
                        self.invalid_other@,
                    ));
                }
                (record.class, record.class_idx)
            },
            None => {
                proof {
                    assert(false);
                }
                (Classification::Valid, 0)
            },
        }
    }

    /// The bubble a configuration belongs to and its index inside it.
    pub fn bubble_data(&self, state: u128) -> (r: (usize, usize))
        requires
            self.wf(),
            self.holds_state(state),
        ensures
            r.0 < self.bubbles_seq().len(),
            r.1 < self.bubbles_seq()[r.0 as int].len(),
            self.bubbles_seq()[r.0 as int][r.1 as int] == state,
    {
        proof {
            assert(map_entries(self.bubble_of).dom().contains(state));
            assert(map_entries(self.bubble_slot).dom().contains(state));
        }
        let bubble = match map_get(&self.bubble_of, state) {
            Some(i) => i,
            None => {
                proof {
                    assert(false);
                }
                0
            },
        };
        let slot = match map_get(&self.bubble_slot, state) {
            Some(j) => j,
            None => {
                proof {
                    assert(false);
                }
                0
            },
        };
        proof {
            assert(self.bubbles@[bubble as int]@ == self.bubbles_seq()[bubble as int]);
        }
        (bubble, slot)
    }

    /// Number of bubbles, the shared singleton bucket included.
    pub fn bubble_count(&self) -> (r: usize)
        ensures
            r == self.bubbles_seq().len(),
    {
        self.bubbles.len()
    }

    /// One bubble's configurations, in discovery order.
    pub fn bubble(&self, index: usize) -> (r: &Vec<u128>)
        requires
            index < self.bubbles_seq().len(),
        ensures
            r@ == self.bubbles_seq()[index as int],
    {
        &self.bubbles[index]
    }

    /// The three buckets partition the whole space: their sizes add up to
    /// `base^N`, the total number of configurations.
    pub proof fn lemma_bucket_sizes(&self)
        requires
            self.wf(),
        ensures
            self.list_seq(Classification::Valid).len() + self.list_seq(
                Classification::InvalidT1,
            ).len() + self.list_seq(Classification::InvalidOther).len() == pow_nat(
                self.base_spec(),
                self.len_spec(),
            ),
    {
    }

    /// The zero configuration is always valid.
    pub proof fn lemma_zero_valid(&self)
        requires
            self.wf(),
        ensures
            self.list_seq(Classification::Valid).contains(0u128),
            classification_of(self.adj(), self.base_spec(), 0) == Classification::Valid,
    {
        lemma_zero_wf(self.base_spec(), self.len_spec());
        lemma_reachable_refl(self.adj(), self.base_spec(), true, 0);
    }

    /// Every configuration carries exactly one classification: it sits in
    /// the bucket its label selects and in no other, exactly once.
    pub proof fn lemma_unique_classification(&self, state: u128)
        requires
            self.wf(),
            self.holds_state(state),
        ensures
            self.list_seq(classification_of(self.adj(), self.base_spec(), state as nat)).contains(
                state,
            ),
            forall|c: Classification| #[trigger]
                self.list_seq(c).contains(state) ==> c == classification_of(
                    self.adj(),
                    self.base_spec(),
                    state as nat,
                ),
            forall|c: Classification| (#[trigger] self.list_seq(c)).no_duplicates(),
    {
        let adj = self.table@;
        let b = self.base as nat;
        if valid_state(adj, b, state as nat) {
            assert(self.valid@.contains(state));
        } else if t1_holds(adj, b, state as nat) {
            assert(self.invalid_t1@.contains(state));
        } else {
            assert(self.invalid_other@.contains(state));
        }
        assert forall|c: Classification| #[trigger]
            self.list_seq(c).contains(state) implies c == classification_of(
            adj,
            b,
            state as nat,
        ) by {
            match c {
                Classification::Valid => {},
                Classification::InvalidT1 => {},
                Classification::InvalidOther => {},
            }
        }
        assert forall|c: Classification| (#[trigger] self.list_seq(c)).no_duplicates() by {
            match c {
                Classification::Valid => {},
                Classification::InvalidT1 => {},
                Classification::InvalidOther => {},
            }
        }
    }

    /// Every configuration belongs to exactly one bubble, at exactly one
    /// position.
    pub proof fn lemma_unique_bubble(&self, state: u128)
        requires
            self.wf(),
            self.holds_state(state),
        ensures
            exists|i: int, j: int|
                0 <= i < self.bubbles_seq().len() && 0 <= j < self.bubbles_seq()[i].len() && (
                #[trigger] self.bubbles_seq()[i][j]) == state,
            forall|i1: int, j1: int, i2: int, j2: int|
                0 <= i1 < self.bubbles_seq().len() && 0 <= j1 < self.bubbles_seq()[i1].len() && 0
                    <= i2 < self.bubbles_seq().len() && 0 <= j2 < self.bubbles_seq()[i2].len() && (
                #[trigger] self.bubbles_seq()[i1][j1]) == state && (#[trigger] self.bubbles_seq()[
                    i2
                ][j2]) == state ==> i1 == i2 && j1 == j2,
    {
        let bov = map_entries(self.bubble_of);
        let bsv = map_entries(self.bubble_slot);
        let i = bov[state] as int;
        let j = bsv[state] as int;
        assert(self.bubbles@[i]@[j] == state);
        assert(self.bubbles_seq()[i][j] == state);
        assert forall|i1: int, j1: int, i2: int, j2: int|
            0 <= i1 < self.bubbles_seq().len() && 0 <= j1 < self.bubbles_seq()[i1].len() && 0 <= i2
                < self.bubbles_seq().len() && 0 <= j2 < self.bubbles_seq()[i2].len() && (
            #[trigger] self.bubbles_seq()[i1][j1]) == state && (#[trigger] self.bubbles_seq()[i2][
                j2
            ]) == state implies i1 == i2 && j1 == j2 by {
            assert(self.bubbles@[i1]@[j1] == state);
            assert(self.bubbles@[i2]@[j2] == state);
        }
    }

    /// Bubbles are the components of strictly reversible reachability: the
    /// bubble of a configuration that can move somewhere else is exactly the
    /// set of configurations strictly reachable from it; configurations that
    /// cannot move sit together in the final shared bucket.
    pub proof fn lemma_bubbles_are_components(&self, i: int, j: int)
        requires
            self.wf(),
            0 <= i < self.bubbles_seq().len(),
            0 <= j < self.bubbles_seq()[i].len(),
        ensures
            ({
                let s = self.bubbles_seq()[i][j];
                &&& !singleton_state(self.adj(), self.base_spec(), s as nat) ==> forall|t: u128|
                    state_wf(t as nat, self.base_spec(), self.len_spec()) ==> (#[trigger] reachable(
                        self.adj(),
                        self.base_spec(),
                        false,
                        s as nat,
                        t as nat,
                    ) <==> self.bubbles_seq()[i].contains(t))
                &&& singleton_state(self.adj(), self.base_spec(), s as nat) ==> i
                    == self.bubbles_seq().len() - 1
            }),
    {
        let s = self.bubbles_seq()[i][j];
        assert(self.bubbles@[i]@[j] == s);
        if !singleton_state(self.adj(), self.base_spec(), s as nat) {
            assert(bubble_exact(self.adj(), self.base_spec(), self.bubbles@[i]@, s));
            assert(self.bubbles@[i]@ == self.bubbles_seq()[i]);
        }
    }
}

} // verus!

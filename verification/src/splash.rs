//! The atomic move ("splash"): perturb every digit in the closed
//! neighborhood of a chosen center vertex by +1 or -1 at once.  In clamping
//! mode a digit that cannot move stays at its bound; in strict mode any
//! digit at its bound rejects the whole move, so no partial update is ever
//! observable.

use vstd::prelude::*;

verus! {

use crate::codec::digit_of;
use crate::codec::pack_prefix;
use crate::codec::lemma_pack_prefix;
use crate::codec::lemma_base_fits;
use crate::codec::lemma_state_eq;
use crate::codec::state_wf;
use crate::codec::width;
use crate::codec::StateOps;
use crate::table::NeighborTable;
use crate::table::adj_wf;
use crate::table::in_closed_nbhd;
use vstd::arithmetic::power2::pow2;

/// The digit `d` after a perturbation in the given direction, clamped to
/// `[0, base-1]`.
pub open spec fn moved_digit(d: nat, up: bool, base: nat) -> nat {
    if up {
        if d + 1 < base {
            d + 1
        } else {
            (base - 1) as nat
        }
    } else {
        if d == 0 {
            0
        } else {
            (d - 1) as nat
        }
    }
}

/// Digit of vertex `v` after splashing `s` at `center`: perturbed inside the
/// closed neighborhood, untouched outside it.
pub open spec fn splash_digit(
    adj: Seq<Seq<usize>>,
    base: nat,
    s: nat,
    center: int,
    up: bool,
    v: int,
) -> nat {
    if in_closed_nbhd(adj, center, v) {
        moved_digit(digit_of(s, v as nat, width(base)), up, base)
    } else {
        digit_of(s, v as nat, width(base))
    }
}

/// A strict splash is rejected when some digit of the closed neighborhood is
/// already at the bound it is pushed against.
pub open spec fn splash_rejects(
    adj: Seq<Seq<usize>>,
    base: nat,
    s: nat,
    center: int,
    up: bool,
) -> bool {
    exists|v: int|
        0 <= v < adj.len() && in_closed_nbhd(adj, center, v) && moved_digit(
            digit_of(s, v as nat, width(base)),
            up,
            base,
        ) == digit_of(s, v as nat, width(base))
}

/// The packed configuration produced by a splash that is not rejected.
pub open spec fn splash_target(
    adj: Seq<Seq<usize>>,
    base: nat,
    s: nat,
    center: int,
    up: bool,
) -> nat {
    pack_prefix(|v: nat| splash_digit(adj, base, s, center, up, v as int), adj.len(), width(base))
}

/// The splash target is well formed and carries exactly the splashed digits.
pub proof fn lemma_splash_target_digits(
    adj: Seq<Seq<usize>>,
    base: nat,
    s: nat,
    center: int,
    up: bool,
)
    requires
        base >= 1,
        state_wf(s, base, adj.len()),
    ensures
        state_wf(splash_target(adj, base, s, center, up), base, adj.len()),
        forall|v: nat|
            v < adj.len() ==> digit_of(splash_target(adj, base, s, center, up), v, width(base))
                == splash_digit(adj, base, s, center, up, v as int),
{
    let w = width(base);
    let f = |v: nat| splash_digit(adj, base, s, center, up, v as int);
    lemma_base_fits(base);
    assert forall|v: nat| v < adj.len() implies #[trigger] f(v) < pow2(w) by {
        assert(digit_of(s, v, w) < base);
    }
    lemma_pack_prefix(f, adj.len(), w);
    assert forall|v: nat|
        v < adj.len() implies digit_of(splash_target(adj, base, s, center, up), v, w) < base by {
        assert(digit_of(s, v, w) < base);
        assert(f(v) < base);
    }
}

/// Reversibility of strict splashes: a strict splash that succeeds is undone
/// exactly by the strict splash at the same center in the opposite
/// direction, which also succeeds.
pub proof fn lemma_splash_reversible(adj: Seq<Seq<usize>>, base: nat, s: nat, center: int, up: bool)
    requires
        base >= 1,
        0 <= center < adj.len(),
        state_wf(s, base, adj.len()),
        !splash_rejects(adj, base, s, center, up),
    ensures
        ({
            let t = splash_target(adj, base, s, center, up);
            &&& !splash_rejects(adj, base, t, center, !up)
            &&& splash_target(adj, base, t, center, !up) == s
        }),
{
    let w = width(base);
    let t = splash_target(adj, base, s, center, up);
    lemma_splash_target_digits(adj, base, s, center, up);
    // each neighborhood digit moved strictly, so it moves strictly back
    assert forall|v: int|
        0 <= v < adj.len() && in_closed_nbhd(adj, center, v) implies moved_digit(
        digit_of(t, v as nat, w),
        !up,
        base,
    ) != digit_of(t, v as nat, w) && moved_digit(digit_of(t, v as nat, w), !up, base) == digit_of(
        s,
        v as nat,
        w,
    ) by {
        let vn = v as nat;
        let d = digit_of(s, vn, w);
        assert(vn as int == v);
        assert(moved_digit(d, up, base) != d);
        assert(d < base);
        assert(digit_of(t, vn, w) == splash_digit(adj, base, s, center, up, vn as int));
        if up {
            assert(digit_of(t, vn, w) == d + 1);
        } else {
            assert(digit_of(t, vn, w) == (d - 1) as nat);
        }
    }
    lemma_splash_target_digits(adj, base, t, center, !up);
    let back = splash_target(adj, base, t, center, !up);
    assert forall|v: nat| v < adj.len() implies digit_of(back, v, w) == digit_of(s, v, w) by {
        let vi = v as int;
        assert(digit_of(back, v, w) == splash_digit(adj, base, t, center, !up, vi));
        assert(digit_of(t, v, w) == splash_digit(adj, base, s, center, up, vi));
        if in_closed_nbhd(adj, center, vi) {
            assert(moved_digit(digit_of(t, vi as nat, w), !up, base) == digit_of(s, vi as nat, w));
        } else {
            assert(digit_of(t, v, w) == digit_of(s, v, w));
        }
    }
    lemma_state_eq(back, s, adj.len(), w);
}

/// Apply one splash.  `delta` selects the direction (+1 or -1);
/// `allow_clamping` selects the clamping policy.  Returns the new packed
/// configuration, or `None` when the move is rejected in strict mode; the
/// input is never changed.
pub fn splash(
    table: &NeighborTable,
    base: u8,
    state: u128,
    center: usize,
    delta: i8,
    allow_clamping: bool,
) -> (r: Option<u128>)
    requires
        base >= 1,
        center < table@.len(),
        delta == 1i8 || delta == -1i8,
        table@.len() * width(base as nat) <= 128,
        state_wf(state as nat, base as nat, table@.len()),
    ensures
        ({
            let up = delta == 1i8;
            &&& (r is None <==> !allow_clamping && splash_rejects(
                table@,
                base as nat,
                state as nat,
                center as int,
                up,
            ))
            &&& (r matches Some(s2) ==> s2 as nat == splash_target(
                table@,
                base as nat,
                state as nat,
                center as int,
                up,
            ))
        }),
{
    proof {
        use_type_invariant(table);
    }
    let ghost adj = table@;
    let ghost b = base as nat;
    let ghost w = width(b);
    let ghost s0 = state as nat;
    let ghost up = delta == 1i8;
    let length = table.len();
    let nb = table.neighbors(center);
    let mut cur: u128 = state;
    let mut k: usize = 0;
    proof {
        lemma_splash_target_digits(adj, b, s0, center as int, up);
    }
    while k < nb.len()
        invariant
            base >= 1,
            adj == table@,
            b == base as nat,
            w == width(b),
            up == (delta == 1i8),
            delta == 1i8 || delta == -1i8,
            adj_wf(adj),
            center < adj.len(),
            length == adj.len(),
            adj.len() * w <= 128,
            state_wf(s0, b, adj.len()),
            s0 == state as nat,
            nb@ == adj[center as int],
            k <= nb@.len(),
            (cur as nat) < pow2(adj.len() * w),
            forall|j: int|
                0 <= j < k ==> digit_of(cur as nat, (#[trigger] nb@[j]) as nat, w) == splash_digit(
                    adj,
                    b,
                    s0,
                    center as int,
                    up,
                    nb@[j] as int,
                ),
            forall|v: nat|
                v < adj.len() && !(exists|j: int| 0 <= j < k && (#[trigger] nb@[j]) as nat == v)
                    ==> digit_of(cur as nat, v, w) == digit_of(s0, v, w),
            !allow_clamping ==> forall|j: int|
                0 <= j < k ==> moved_digit(digit_of(s0, (#[trigger] nb@[j]) as nat, w), up, b)
                    != digit_of(s0, nb@[j] as nat, w),
        decreases nb@.len() - k,
    {
        let v = nb[k];
        proof {
            assert(nb@[k as int] == adj[center as int][k as int]);
            assert(v < adj.len());
        }
        let d = StateOps::get(state, v, base, length);
        let nd = if delta == 1i8 {
            if ((d as u16) + 1) < (base as u16) {
                d + 1
            } else {
                base - 1
            }
        } else {
            if d == 0 {
                0
            } else {
                d - 1
            }
        };
        proof {
            assert(digit_of(s0, v as nat, w) < b);
            assert(nd as nat == moved_digit(digit_of(s0, v as nat, w), up, b));
            assert(in_closed_nbhd(adj, center as int, v as int));
        }
        if !allow_clamping && nd == d {
            return None;
        }
        proof {
            assert((nd as nat) < b);
        }
        cur = StateOps::set(cur, v, nd, base, length);
        k = k + 1;
        proof {
            // the digit just written is never rewritten: entries are unique
            assert forall|j: int|
                0 <= j < k implies digit_of(cur as nat, (#[trigger] nb@[j]) as nat, w)
                == splash_digit(adj, b, s0, center as int, up, nb@[j] as int) by {
                if j < k - 1 {
                    assert(nb@[j] != nb@[k - 1]);
                }
            }
        }
    }
    // the center vertex itself
    let d = StateOps::get(state, center, base, length);
    let nd = if delta == 1i8 {
        if ((d as u16) + 1) < (base as u16) {
            d + 1
        } else {
            base - 1
        }
    } else {
        if d == 0 {
            0
        } else {
            d - 1
        }
    };
    proof {
        assert(digit_of(s0, center as nat, w) < b);
        assert(nd as nat == moved_digit(digit_of(s0, center as nat, w), up, b));
        assert(in_closed_nbhd(adj, center as int, center as int));
    }
    if !allow_clamping && nd == d {
        return None;
    }
    proof {
        assert((nd as nat) < b);
        // no digit in the neighborhood still rejects: every candidate is the
        // center or some list entry, and all were checked
        if !allow_clamping {
            assert forall|v: int|
                0 <= v < adj.len() && in_closed_nbhd(adj, center as int, v) implies moved_digit(
                digit_of(s0, v as nat, w),
                up,
                b,
            ) != digit_of(s0, v as nat, w) by {
                if v != center as int {
                    let j = choose|j: int| 0 <= j < adj[center as int].len() && adj[center as int][j] as int == v;
                    assert(nb@[j] as int == v);
                }
            }
        }
    }
    let result = StateOps::set(cur, center, nd, base, length);
    proof {
        let rn = result as nat;
        let tgt = splash_target(adj, b, s0, center as int, up);
        assert forall|v: nat| v < adj.len() implies digit_of(rn, v, w) == digit_of(tgt, v, w) by {
            assert(digit_of(tgt, v, w) == splash_digit(adj, b, s0, center as int, up, v as int));
            if v == center as nat {
            } else if exists|j: int| 0 <= j < nb@.len() && (#[trigger] nb@[j]) as nat == v {
                let j = choose|j: int| 0 <= j < nb@.len() && (#[trigger] nb@[j]) as nat == v;
                assert(in_closed_nbhd(adj, center as int, v as int));
            } else {
                assert(!in_closed_nbhd(adj, center as int, v as int)) by {
                    if in_closed_nbhd(adj, center as int, v as int) {
                        let j = choose|j: int|
                            0 <= j < adj[center as int].len() && adj[center as int][j] as int
                                == v as int;
                        assert(nb@[j] as nat == v);
                    }
                }
            }
        }
        lemma_splash_target_digits(adj, b, s0, center as int, up);
        lemma_state_eq(rn, tgt, adj.len(), w);
    }
    Some(result)
}

} // verus!

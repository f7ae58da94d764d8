//! Serialization of a simple undirected graph into the graph6 text format:
//! one character for the vertex count, then the upper triangle of the
//! adjacency matrix in column order, packed six bits per character, each
//! character offset by 63.

use vstd::prelude::*;

verus! {

use crate::table::list_has;

/// Vertices `i` and `j` are adjacent: either list mentions the other.
pub open spec fn g6_edge(adj: Seq<Seq<usize>>, i: int, j: int) -> bool {
    ||| exists|k: int| 0 <= k < adj[i].len() && adj[i][k] as int == j
    ||| exists|k: int| 0 <= k < adj[j].len() && adj[j][k] as int == i
}

/// Column `j` of the upper triangle: the edge bits `(0,j), ..., (j-1,j)`.
pub open spec fn g6_col(adj: Seq<Seq<usize>>, j: int) -> Seq<bool> {
    Seq::new(j as nat, |i: int| g6_edge(adj, i, j))
}

/// The upper-triangle bits of the columns below `j`, in graph6 order.
pub open spec fn g6_bits(adj: Seq<Seq<usize>>, j: nat) -> Seq<bool>
    decreases j,
{
    if j <= 1 {
        Seq::empty()
    } else {
        g6_bits(adj, (j - 1) as nat) + g6_col(adj, j - 1)
    }
}

/// Zero bits appended to reach a multiple of six.
pub open spec fn g6_padded(adj: Seq<Seq<usize>>) -> Seq<bool> {
    let bits = g6_bits(adj, adj.len());
    bits + Seq::new((((6 - bits.len() as int % 6) % 6) as nat), |i: int| false)
}

/// The value of six bits starting at position `6*c`, high bit first.
pub open spec fn g6_chunk_val(bits: Seq<bool>, c: int) -> nat {
    (if bits[6 * c] {
        32nat
    } else {
        0nat
    }) + (if bits[6 * c + 1] {
        16nat
    } else {
        0nat
    }) + (if bits[6 * c + 2] {
        8nat
    } else {
        0nat
    }) + (if bits[6 * c + 3] {
        4nat
    } else {
        0nat
    }) + (if bits[6 * c + 4] {
        2nat
    } else {
        0nat
    }) + (if bits[6 * c + 5] {
        1nat
    } else {
        0nat
    })
}

proof fn lemma_g6_bits_len(adj: Seq<Seq<usize>>, j: nat)
    ensures
        2 * g6_bits(adj, j).len() == j * (j - 1) || j == 0,
    decreases j,
{
    if j > 1 {
        lemma_g6_bits_len(adj, (j - 1) as nat);
        assert(2 * (g6_bits(adj, (j - 1) as nat).len() + (j - 1)) == j * (j - 1))
            by (nonlinear_arith)
            requires
                2 * g6_bits(adj, (j - 1) as nat).len() == (j - 1) * (j - 2) || j == 1,
                j >= 2,
        ;
    }
}

/// Serialize an undirected simple graph into graph6 text.  `adj[i]` lists
/// the neighbors of vertex `i`; an edge may be listed on either endpoint or
/// both.  Supports up to 62 vertices; self loops are excluded up front.
pub fn to_graph6(adj: &Vec<Vec<usize>>) -> (r: String)
    requires
        adj@.len() <= 62,
        forall|i: int, k: int|
            0 <= i < adj@.len() && 0 <= k < adj@[i]@.len() ==> (#[trigger] adj@[i]@[k]) as int != i,
    ensures
        ({
            let view = adj@.map_values(|column: Vec<usize>| column@);
            let padded = g6_padded(view);
            &&& r@.len() == 1 + padded.len() / 6
            &&& r@[0] == (((adj@.len() + 63) as u8) as char)
            &&& forall|c: int|
                0 <= c < padded.len() / 6 ==> r@[c + 1] == (((#[trigger] g6_chunk_val(padded, c)
                    + 63) as u8) as char)
        }),
{
    let ghost view = adj@.map_values(|column: Vec<usize>| column@);
    let n = adj.len();
    let mut output = String::new();
    push_char(&mut output, ((n as u8) + 63) as char);
    // collect the upper-triangle bits in graph6 column order
    let mut bits: Vec<bool> = Vec::new();
    let mut j: usize = 1;
    proof {
        assert(bits@ =~= g6_bits(view, 1nat));
        assert(bits@ =~= g6_bits(view, 0nat));
    }
    while j < n
        invariant
            n == adj@.len(),
            view == adj@.map_values(|column: Vec<usize>| column@),
            1 <= j <= n || (n == 0 && j == 1),
            bits@ == g6_bits(view, j as nat),
        decreases n - j,
    {
        let mut i: usize = 0;
        while i < j
            invariant
                n == adj@.len(),
                view == adj@.map_values(|column: Vec<usize>| column@),
                1 <= j < n,
                i <= j,
                bits@ == g6_bits(view, j as nat) + g6_col(view, j as int).take(i as int),
            decreases j - i,
        {
            let here = list_has(&adj[i], j) || list_has(&adj[j], i);
            proof {
                assert(view[i as int] == adj@[i as int]@);
                assert(view[j as int] == adj@[j as int]@);
                assert(here == g6_edge(view, i as int, j as int));
            }
            bits.push(here);
            i = i + 1;
            proof {
                assert(bits@ =~= g6_bits(view, j as nat) + g6_col(view, j as int).take(i as int));
            }
        }
        j = j + 1;
        proof {
            assert(g6_col(view, j - 1).take((j - 1) as int) =~= g6_col(view, j - 1));
            assert(bits@ =~= g6_bits(view, j as nat));
        }
    }
    proof {
        if n == 0 {
            assert(bits@ =~= g6_bits(view, 0nat));
        }
        lemma_g6_bits_len(view, n as nat);
    }
    // pad to a multiple of six bits
    let ghost raw = bits@;
    let ghost pad = ((6 - raw.len() as int % 6) % 6) as nat;
    proof {
        let l = raw.len() as int;
        vstd::arithmetic::div_mod::lemma_mod_bound(l, 6);
        assert((l + pad) % 6 == 0) by {
            if l % 6 == 0 {
                assert(pad == 0);
            } else {
                vstd::arithmetic::div_mod::lemma_fundamental_div_mod(l, 6);
                assert(l + pad == 6 * (l / 6 + 1)) by {
                    assert(pad == 6 - l % 6);
                }
                vstd::arithmetic::div_mod::lemma_mod_multiples_vanish(l / 6 + 1, 0, 6);
            }
        }
    }
    while bits.len() % 6 != 0
        invariant
            raw == g6_bits(view, view.len()),
            n == view.len(),
            pad == ((6 - raw.len() as int % 6) % 6) as nat,
            (raw.len() + pad) % 6 == 0,
            pad < 6,
            raw.is_prefix_of(bits@),
            raw.len() <= bits@.len() <= raw.len() + pad,
            forall|k: int| raw.len() <= k < bits@.len() ==> !(#[trigger] bits@[k]),
        decreases raw.len() + pad - bits@.len(),
    {
        proof {
            let m = bits@.len() as int;
            let l = raw.len() as int;
            assert(m < l + pad) by {
                if m == l + pad {
                    assert(m % 6 == 0);
                }
            }
        }
        bits.push(false);
    }
    proof {
        // the loop stops exactly at the padded length
        assert(bits@.len() == raw.len() + pad) by {
            let m = bits@.len() as int;
            let l = raw.len() as int;
            let p = l + pad;
            if m < p {
                vstd::arithmetic::div_mod::lemma_fundamental_div_mod(m, 6);
                vstd::arithmetic::div_mod::lemma_fundamental_div_mod(p, 6);
                assert(m / 6 == p / 6) by (nonlinear_arith)
                    requires
                        6 * (m / 6) + 0 == m,
                        6 * (p / 6) + 0 == p,
                        m <= p < m + 6,
                ;
                assert(false);
            }
        }
        assert(bits@ =~= g6_padded(view));
    }
    // emit one character for each six-bit chunk
    let total = bits.len();
    let chunks = total / 6;
    let mut c: usize = 0;
    proof {
        vstd::arithmetic::div_mod::lemma_fundamental_div_mod(total as int, 6);
    }
    while c < chunks
        invariant
            bits@ == g6_padded(view),
            n == view.len(),
            total == bits@.len(),
            total == 6 * chunks,
            chunks == bits@.len() / 6,
            c <= chunks,
            n <= 62,
            output@.len() == 1 + c,
            output@[0] == (((n + 63) as u8) as char),
            forall|c0: int|
                0 <= c0 < c ==> output@[c0 + 1] == (((#[trigger] g6_chunk_val(bits@, c0)
                    + 63) as u8) as char),
        decreases chunks - c,
    {
        let k = 6 * c;
        proof {
            assert(6 * (c as int) + 6 <= 6 * (chunks as int)) by (nonlinear_arith)
                requires (c as int) < chunks as int,
            ;
        }
        let mut value: u8 = 0;
        if bits[k] {
            value = value + 32;
        }
        if bits[k + 1] {
            value = value + 16;
        }
        if bits[k + 2] {
            value = value + 8;
        }
        if bits[k + 3] {
            value = value + 4;
        }
        if bits[k + 4] {
            value = value + 2;
        }
        if bits[k + 5] {
            value = value + 1;
        }
        proof {
            assert(value as nat == g6_chunk_val(bits@, c as int));
        }
        push_char(&mut output, (value + 63) as char);
        c = c + 1;
    }
    output
}

/// Relies on `String::push`: it appends the given character to the end of
/// the string.
#[verifier::external_body]
fn push_char(s: &mut String, c: char)
    ensures
        final(s)@ == old(s)@.push(c),
{
    s.push(c);
}

} // verus!

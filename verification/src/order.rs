//! Stable ordering by a key: the order in which sessions and candidates are
//! listed (newest first, best first), ties kept in their input order.

use vstd::prelude::*;
use crate::text::{
    lemma_seq_lt_asym, lemma_seq_lt_irrefl, lemma_seq_lt_total, lemma_seq_lt_trans, seq_lt,
};
use crate::transcript::opt_str_view;

verus! {

broadcast use vstd::string::group_string_axioms;

/// A sort key: a number, then an optional string (absent before present,
/// strings in code-point order).
pub struct SortKey {
    pub major: u128,
    pub minor: Option<String>,
}

pub open spec fn opt_lt(a: Option<Seq<char>>, b: Option<Seq<char>>) -> bool {
    match (a, b) {
        (None, Some(_)) => true,
        (Some(x), Some(y)) => seq_lt(x, y),
        _ => false,
    }
}

/// `a` orders before `b` (ascending).
pub open spec fn key_lt(a: SortKey, b: SortKey) -> bool {
    a.major < b.major || (a.major == b.major && opt_lt(opt_str_view(a.minor), opt_str_view(b.minor)))
}

pub open spec fn key_eq(a: SortKey, b: SortKey) -> bool {
    a.major == b.major && opt_str_view(a.minor) == opt_str_view(b.minor)
}

/// Item `i` comes before item `j`: its key orders first (descending or
/// ascending), or the keys are equal and `i` came first.
pub open spec fn precedes(keys: Seq<SortKey>, desc: bool, i: int, j: int) -> bool {
    let a = keys[i];
    let b = keys[j];
    (if desc {
        key_lt(b, a)
    } else {
        key_lt(a, b)
    }) || (key_eq(a, b) && i < j)
}

/// `p` lists every index of `keys` once, in the stable order of their keys.
pub open spec fn stably_ordered(keys: Seq<SortKey>, desc: bool, p: Seq<usize>) -> bool {
    &&& p.len() == keys.len()
    &&& forall|k: int| 0 <= k < p.len() ==> #[trigger] p[k] < keys.len()
    &&& forall|k: int, l: int| 0 <= k < l < p.len() ==> precedes(keys, desc, #[trigger] p[k] as int, #[trigger] p[l] as int)
}

proof fn lemma_opt_lt_props(a: Option<Seq<char>>, b: Option<Seq<char>>, c: Option<Seq<char>>)
    ensures
        !opt_lt(a, a),
        opt_lt(a, b) ==> !opt_lt(b, a),
        opt_lt(a, b) || opt_lt(b, a) || a == b,
        opt_lt(a, b) && opt_lt(b, c) ==> opt_lt(a, c),
{
    match a {
        Some(x) => {
            lemma_seq_lt_irrefl(x);
        },
        None => {},
    }
    match (a, b) {
        (Some(x), Some(y)) => {
            lemma_seq_lt_asym(x, y);
            lemma_seq_lt_total(x, y);
        },
        _ => {},
    }
    if opt_lt(a, b) && opt_lt(b, c) {
        match (a, b, c) {
            (Some(x), Some(y), Some(z)) => {
                lemma_seq_lt_trans(x, y, z);
            },
            _ => {},
        }
    }
}

/// `precedes` is a strict total order on the indices.
proof fn lemma_precedes(keys: Seq<SortKey>, desc: bool, i: int, j: int, k: int)
    requires
        0 <= i < keys.len(),
        0 <= j < keys.len(),
        0 <= k < keys.len(),
    ensures
        !precedes(keys, desc, i, i),
        i != j ==> (precedes(keys, desc, i, j) || precedes(keys, desc, j, i)),
        precedes(keys, desc, i, j) ==> !precedes(keys, desc, j, i),
        precedes(keys, desc, i, j) && precedes(keys, desc, j, k) ==> precedes(keys, desc, i, k),
{
    let a = opt_str_view(keys[i].minor);
    let b = opt_str_view(keys[j].minor);
    let c = opt_str_view(keys[k].minor);
    lemma_opt_lt_props(a, b, c);
    lemma_opt_lt_props(b, a, c);
    lemma_opt_lt_props(a, c, b);
    lemma_opt_lt_props(c, b, a);
    lemma_opt_lt_props(b, c, a);
    lemma_opt_lt_props(c, a, b);
}

/// Indices of `keys` in stable order: descending or ascending by key, ties
/// in their input order (what a stable `sort_by_key` gives).
pub fn stable_order(keys: &Vec<SortKey>, desc: bool) -> (p: Vec<usize>)
    ensures
        stably_ordered(keys@, desc, p@),
{
    let ghost ks = keys@;
    let mut out: Vec<usize> = Vec::new();
    let mut i: usize = 0;
    while i < keys.len()
        invariant
            ks == keys@,
            i <= ks.len(),
            out@.len() == i,
            forall|k: int| 0 <= k < out@.len() ==> #[trigger] out@[k] < i,
            forall|k: int, l: int|
                0 <= k < l < out@.len() ==> precedes(ks, desc, #[trigger] out@[k] as int, #[trigger] out@[l] as int),
        decreases ks.len() - i,
    {
        // first position whose key the new item strictly beats
        let mut pos: usize = 0;
        while pos < out.len() && !better(&keys[i], &keys[out[pos]], desc)
            invariant
                ks == keys@,
                i < ks.len(),
                pos <= out@.len(),
                forall|k: int| 0 <= k < out@.len() ==> #[trigger] out@[k] < i,
                forall|k: int| 0 <= k < pos ==> precedes(ks, desc, #[trigger] out@[k] as int, i as int),
            decreases out@.len() - pos,
        {
            proof {
                let o = out@[pos as int] as int;
                lemma_precedes(ks, desc, o, i as int, o);
            }
            pos = pos + 1;
        }
        let ghost before = out@;
        proof {
            if pos < before.len() {
                assert forall|l: int| pos <= l < before.len() implies precedes(ks, desc, i as int, #[trigger] before[l] as int) by {
                    let o = before[pos as int] as int;
                    let q = before[l] as int;
                    lemma_precedes(ks, desc, i as int, o, q);
                    if l > pos {
                        assert(precedes(ks, desc, before[pos as int] as int, before[l] as int));
                    }
                }
            }
        }
        out.insert(pos, i);
        proof {
            assert forall|k: int, l: int|
                0 <= k < l < out@.len() implies precedes(ks, desc, #[trigger] out@[k] as int, #[trigger] out@[l] as int) by {
                if k < pos && l == pos {
                } else if k < pos && l > pos {
                    assert(out@[l] == before[l - 1]);
                } else if k == pos {
                    assert(out@[l] == before[l - 1]);
                } else if k > pos {
                    assert(out@[k] == before[k - 1]);
                    assert(out@[l] == before[l - 1]);
                } else {
                    assert(out@[k] == before[k]);
                    assert(out@[l] == before[l]);
                }
            }
            assert forall|k: int| 0 <= k < out@.len() implies #[trigger] out@[k] < i + 1 by {
                if k < pos {
                    assert(out@[k] == before[k]);
                } else if k > pos {
                    assert(out@[k] == before[k - 1]);
                }
            }
        }
        i = i + 1;
    }
    out
}

/// Whether `a` strictly beats `b` in the chosen direction.
fn better(a: &SortKey, b: &SortKey, desc: bool) -> (r: bool)
    ensures
        r == if desc {
            key_lt(*b, *a)
        } else {
            key_lt(*a, *b)
        },
{
    if desc {
        key_less(b, a)
    } else {
        key_less(a, b)
    }
}

fn key_less(a: &SortKey, b: &SortKey) -> (r: bool)
    ensures
        r == key_lt(*a, *b),
{
    if a.major < b.major {
        return true;
    }
    if a.major > b.major {
        return false;
    }
    match (&a.minor, &b.minor) {
        (None, Some(_)) => true,
        (Some(x), Some(y)) => {
            let xv = crate::text::chars_of(x.as_str());
            let yv = crate::text::chars_of(y.as_str());
            let r = crate::text::range_lt(&xv, 0, xv.len(), &yv, 0, yv.len());
            assert(xv@.subrange(0, xv@.len() as int) =~= x@);
            assert(yv@.subrange(0, yv@.len() as int) =~= y@);
            r
        },
        _ => false,
    }
}

} // verus!

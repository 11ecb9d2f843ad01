//! A cardinality bound on chart columns.
//!
//! The items that can live in column `c` under grammar `g` are dotted forms
//! of `g`'s productions with an origin at most `c`: finitely many. Since a
//! column never holds an item twice, its length is bounded, which is what
//! makes every closure loop of the recognizer terminate.

use vstd::prelude::*;
use vstd::set_lib::{lemma_int_range, lemma_len_subset, set_int_range};

use crate::column::{col_wf, EntryV};
use crate::grammar::{has_prod, ProdV};
use crate::item::ItemV;
use crate::token::TokenV;

verus! {

/// The first production index carrying exactly `(lhs, rhs)`.
pub open spec fn prod_index(g: Seq<ProdV>, lhs: Seq<char>, rhs: Seq<TokenV>) -> int
    decreases g.len(),
{
    if g.len() == 0 {
        0
    } else if g[0].lhs == lhs && g[0].rhs == rhs {
        0
    } else {
        1 + prod_index(g.skip(1), lhs, rhs)
    }
}

proof fn lemma_prod_index(g: Seq<ProdV>, lhs: Seq<char>, rhs: Seq<TokenV>)
    requires
        has_prod(g, lhs, rhs),
    ensures
        0 <= prod_index(g, lhs, rhs) < g.len(),
        g[prod_index(g, lhs, rhs)].lhs == lhs,
        g[prod_index(g, lhs, rhs)].rhs == rhs,
    decreases g.len(),
{
    if g.len() == 0 {
    } else if g[0].lhs == lhs && g[0].rhs == rhs {
    } else {
        let p = choose|p: int| 0 <= p < g.len() && g[p].lhs == lhs && g[p].rhs == rhs;
        assert(g.skip(1)[p - 1] == g[p]);
        assert(has_prod(g.skip(1), lhs, rhs));
        lemma_prod_index(g.skip(1), lhs, rhs);
    }
}

/// The longest expansion length in the grammar.
pub open spec fn max_exp_len(g: Seq<ProdV>) -> int
    decreases g.len(),
{
    if g.len() == 0 {
        0
    } else {
        let rest = max_exp_len(g.skip(1));
        if g[0].rhs.len() >= rest {
            g[0].rhs.len() as int
        } else {
            rest
        }
    }
}

proof fn lemma_max_exp_len(g: Seq<ProdV>, p: int)
    requires
        0 <= p < g.len(),
    ensures
        max_exp_len(g) >= 0,
        g[p].rhs.len() <= max_exp_len(g),
    decreases g.len(),
{
    if p == 0 {
        if g.len() > 1 {
            lemma_max_exp_len(g.skip(1), 0);
        }
    } else {
        lemma_max_exp_len(g.skip(1), p - 1);
        assert(g.skip(1)[p - 1] == g[p]);
    }
}

proof fn lemma_max_exp_len_nonneg(g: Seq<ProdV>)
    ensures
        max_exp_len(g) >= 0,
    decreases g.len(),
{
    if g.len() > 0 {
        lemma_max_exp_len_nonneg(g.skip(1));
    }
}

/// Whether `it` is one of the finitely many items that may live in column
/// `c` under grammar `g`.
pub open spec fn in_universe(g: Seq<ProdV>, c: int, it: ItemV) -> bool {
    &&& has_prod(g, it.name, it.exp)
    &&& 0 <= it.dot <= it.exp.len()
    &&& 0 <= it.start <= c
    &&& it.end == c
}

/// An injective code for universe items.
pub open spec fn item_code(g: Seq<ProdV>, c: int, it: ItemV) -> int {
    (prod_index(g, it.name, it.exp) * (max_exp_len(g) + 1) + it.dot) * (c + 1) + it.start
}

/// How many codes there are: the bound on a column's length.
pub open spec fn universe_size(g: Seq<ProdV>, c: int) -> int {
    g.len() * (max_exp_len(g) + 1) * (c + 1)
}

proof fn lemma_code_bounds(g: Seq<ProdV>, c: int, it: ItemV)
    requires
        in_universe(g, c, it),
    ensures
        0 <= item_code(g, c, it) < universe_size(g, c),
{
    let p = prod_index(g, it.name, it.exp);
    let m = max_exp_len(g) + 1;
    let n = g.len() as int;
    lemma_prod_index(g, it.name, it.exp);
    lemma_max_exp_len(g, p);
    assert(it.dot <= max_exp_len(g));
    assert(0 <= p <= n - 1);
    assert(0 <= it.dot < m);
    assert(0 <= it.start <= c);
    assert((p * m + it.dot) * (c + 1) + it.start < n * m * (c + 1)) by (nonlinear_arith)
        requires
            0 <= p <= n - 1,
            0 <= it.dot < m,
            0 <= it.start <= c,
            m >= 1,
    ;
    assert((p * m + it.dot) * (c + 1) + it.start >= 0) by (nonlinear_arith)
        requires
            0 <= p,
            0 <= it.dot,
            0 <= it.start <= c,
            m >= 1,
    ;
}

proof fn lemma_code_injective(g: Seq<ProdV>, c: int, it1: ItemV, it2: ItemV)
    requires
        in_universe(g, c, it1),
        in_universe(g, c, it2),
        item_code(g, c, it1) == item_code(g, c, it2),
    ensures
        it1 == it2,
{
    let p1 = prod_index(g, it1.name, it1.exp);
    let p2 = prod_index(g, it2.name, it2.exp);
    let m = max_exp_len(g) + 1;
    lemma_prod_index(g, it1.name, it1.exp);
    lemma_prod_index(g, it2.name, it2.exp);
    lemma_max_exp_len(g, p1);
    lemma_max_exp_len(g, p2);
    let a1 = p1 * m + it1.dot;
    let a2 = p2 * m + it2.dot;
    assert(a1 == a2 && it1.start == it2.start) by (nonlinear_arith)
        requires
            a1 * (c + 1) + it1.start == a2 * (c + 1) + it2.start,
            0 <= it1.start <= c,
            0 <= it2.start <= c,
    ;
    assert(p1 == p2 && it1.dot == it2.dot) by (nonlinear_arith)
        requires
            p1 * m + it1.dot == p2 * m + it2.dot,
            0 <= it1.dot < m,
            0 <= it2.dot < m,
    ;
    assert(it1.name == it2.name && it1.exp == it2.exp);
    assert(it1 =~= it2);
}

/// A well-formed column holds each possible item at most once, so its length
/// is bounded by the number of possible items.
pub proof fn lemma_col_len_bound(g: Seq<ProdV>, c: int, col: Seq<EntryV>)
    requires
        col_wf(g, c, col),
        c >= 0,
    ensures
        col.len() <= universe_size(g, c),
{
    let codes = Seq::new(col.len(), |k: int| item_code(g, c, col[k].item));
    assert forall|k: int| 0 <= k < col.len() implies in_universe(g, c, (#[trigger] col[k]).item) by {
        assert(col[k].item.wf());
    }
    assert forall|k: int| 0 <= k < codes.len() implies 0 <= #[trigger] codes[k] < universe_size(
        g,
        c,
    ) by {
        lemma_code_bounds(g, c, col[k].item);
    }
    assert(codes.no_duplicates()) by {
        assert forall|a: int, b: int| 0 <= a < b < codes.len() implies codes[a] != codes[b] by {
            if item_code(g, c, col[a].item) == item_code(g, c, col[b].item) {
                lemma_code_injective(g, c, col[a].item, col[b].item);
            }
        }
    }
    codes.unique_seq_to_set();
    lemma_max_exp_len_nonneg(g);
    assert(g.len() * (max_exp_len(g) + 1) * (c + 1) >= 0) by (nonlinear_arith)
        requires
            g.len() >= 0,
            max_exp_len(g) >= 0,
            c >= 0,
    ;
    let range = set_int_range(0, universe_size(g, c));
    lemma_int_range(0, universe_size(g, c));
    assert(codes.to_set().subset_of(range)) by {
        assert forall|x: int| codes.to_set().contains(x) implies range.contains(x) by {
            let k = choose|k: int| 0 <= k < codes.len() && codes[k] == x;
            assert(0 <= codes[k] < universe_size(g, c));
        }
    }
    lemma_len_subset(codes.to_set(), range);
}

} // verus!

//! The Earley chart and its construction.
//!
//! A [`Table`] owns a frozen grammar, the start nonterminal, and one column
//! per recognized input position. Column 0 is the predict-closure of the
//! seed items for the start nonterminal. Each later column `j` is built from
//! column `j - 1` by a scan over the incoming terminal, followed by the
//! joint fixed point of the complete and predict rules — joint, so that a
//! production deriving the empty word completes within the very column that
//! predicted it.
//!
//! The contracts pin column contents down exactly: an item is in the column
//! if and only if it is reachable from the base items (seeds, or the scanned
//! items) by finitely many predict / complete steps. Membership at stage `n`
//! is [`in_col0`] / [`in_colj`]; the closures below are proved to produce
//! precisely the union over all stages.

use vstd::prelude::*;

use crate::bound::{lemma_col_len_bound, universe_size};
use crate::column::{col_has, col_wf, contains_item, entries_view, push_new, Entry, EntryV};
use crate::errors::Error;
use crate::grammar::{grammar_closed, has_key, has_prod, Grammar, ProdV};
use crate::item::{InsertedBy, Item, ItemV, Span};
use crate::token::{strs_view, Token, TokenV};

verus! {

// ---------------------------------------------------------------------------
// The inference rules, as relations between items.
// ---------------------------------------------------------------------------
/// A seed of column 0: a fresh dotted production for the start nonterminal.
pub open spec fn is_seed(g: Seq<ProdV>, s: Seq<char>, it: ItemV) -> bool {
    &&& has_prod(g, s, it.exp)
    &&& it.name == s
    &&& it.dot == 0
    &&& it.start == 0
    &&& it.end == 0
}

/// `it` is the prediction, at column `c`, of the nonterminal just past the
/// dot of `x`.
pub open spec fn predicted_from(g: Seq<ProdV>, c: int, x: ItemV, it: ItemV) -> bool {
    &&& 0 <= x.dot < x.exp.len()
    &&& x.next_sym() is NonTerm
    &&& it.name == x.next_sym()->NonTerm_0
    &&& has_prod(g, it.name, it.exp)
    &&& it.dot == 0
    &&& it.start == c
    &&& it.end == c
}

/// `it` is `prev`, scanned over the terminal `tok` into column `j`.
pub open spec fn scanned_from(tok: Seq<char>, j: int, prev: ItemV, it: ItemV) -> bool {
    &&& 0 <= prev.dot < prev.exp.len()
    &&& prev.next_sym() == TokenV::Term(tok)
    &&& prev.end == j - 1
    &&& it == prev.advanced(j)
}

/// `it` is `mu`, advanced over the completed item `b` into column `j`.
pub open spec fn completed_from(j: int, mu: ItemV, b: ItemV, it: ItemV) -> bool {
    &&& b.is_complete()
    &&& b.end == j
    &&& 0 <= mu.dot < mu.exp.len()
    &&& mu.next_sym() == TokenV::NonTerm(b.name)
    &&& mu.end == b.start
    &&& it == mu.advanced(j)
}

// ---------------------------------------------------------------------------
// Column membership, by closure stage.
// ---------------------------------------------------------------------------
/// Membership in column 0 at closure stage `n`: a seed, or the prediction of
/// an item of an earlier stage.
pub open spec fn in_col0(g: Seq<ProdV>, s: Seq<char>, n: nat, it: ItemV) -> bool
    decreases n,
{
    if n == 0 {
        is_seed(g, s, it)
    } else {
        ||| in_col0(g, s, (n - 1) as nat, it)
        ||| exists|x: ItemV| in_col0(g, s, (n - 1) as nat, x) && predicted_from(g, 0, x, it)
    }
}

/// Membership in column 0: reachable at some stage.
pub open spec fn col0_member(g: Seq<ProdV>, s: Seq<char>, it: ItemV) -> bool {
    exists|n: nat| in_col0(g, s, n, it)
}

/// The items of `col` advanced over `tok` into column `j`.
pub open spec fn scan_base_col(col: Seq<EntryV>, tok: Seq<char>, j: int, it: ItemV) -> bool {
    exists|k: int| 0 <= k < col.len() && scanned_from(tok, j, (#[trigger] col[k]).item, it)
}

/// The scan base of column `j`: items of column `j - 1` advanced over `tok`.
pub open spec fn scan_base(prior: Seq<Seq<EntryV>>, tok: Seq<char>, j: int, it: ItemV) -> bool {
    scan_base_col(prior[j - 1], tok, j, it)
}

/// Membership in column `j >= 1` at closure stage `n`, over the previous
/// columns `prior` (columns `0 .. j`): a scanned item, or an item of an
/// earlier stage advanced over a completed item of an earlier stage, or a
/// prediction from an item of an earlier stage. The predecessor of a
/// completion lives at the completed item's origin column: in the chart when
/// that column is older, in the column under construction when the completed
/// item derived the empty word within it.
pub open spec fn in_colj(
    g: Seq<ProdV>,
    prior: Seq<Seq<EntryV>>,
    tok: Seq<char>,
    j: int,
    n: nat,
    it: ItemV,
) -> bool
    decreases n,
{
    if n == 0 {
        scan_base(prior, tok, j, it)
    } else {
        ||| in_colj(g, prior, tok, j, (n - 1) as nat, it)
        ||| exists|b: ItemV, mu: ItemV|
            {
                &&& in_colj(g, prior, tok, j, (n - 1) as nat, b)
                &&& completed_from(j, mu, b, it)
                &&& if b.start < j {
                    0 <= b.start && col_has(prior[b.start], mu)
                } else {
                    in_colj(g, prior, tok, j, (n - 1) as nat, mu)
                }
            }
        ||| exists|x: ItemV| in_colj(g, prior, tok, j, (n - 1) as nat, x) && predicted_from(
            g,
            j,
            x,
            it,
        )
    }
}

/// Membership in column `j`: reachable at some stage.
pub open spec fn colj_member(
    g: Seq<ProdV>,
    prior: Seq<Seq<EntryV>>,
    tok: Seq<char>,
    j: int,
    it: ItemV,
) -> bool {
    exists|n: nat| in_colj(g, prior, tok, j, n, it)
}

// ---------------------------------------------------------------------------
// One-step derivability from a concrete column, and closedness.
// ---------------------------------------------------------------------------
/// Some item of `cur` predicts `it` at column `c`.
pub open spec fn pred_step(g: Seq<ProdV>, c: int, cur: Seq<EntryV>, it: ItemV) -> bool {
    exists|x: int| 0 <= x < cur.len() && predicted_from(g, c, (#[trigger] cur[x]).item, it)
}

/// The completed item at index `bk` of `cur`, together with some predecessor
/// at its origin column, completes into `it` at column `j`.
pub open spec fn comp_step_at(
    prior: Seq<Seq<EntryV>>,
    j: int,
    cur: Seq<EntryV>,
    bk: int,
    it: ItemV,
) -> bool {
    exists|mu: ItemV|
        {
            &&& #[trigger] completed_from(j, mu, cur[bk].item, it)
            &&& if cur[bk].item.start < j {
                0 <= cur[bk].item.start && col_has(prior[cur[bk].item.start], mu)
            } else {
                col_has(cur, mu)
            }
        }
}

/// Some completed item of `cur`, with a predecessor in the chart or in
/// `cur`, completes into `it` at column `j`.
pub open spec fn comp_step(
    prior: Seq<Seq<EntryV>>,
    j: int,
    cur: Seq<EntryV>,
    it: ItemV,
) -> bool {
    exists|bk: int| 0 <= bk < cur.len() && #[trigger] comp_step_at(prior, j, cur, bk, it)
}

/// `cur` is closed under the predict rule at column `c`.
pub open spec fn pred_closed(g: Seq<ProdV>, c: int, cur: Seq<EntryV>) -> bool {
    forall|it: ItemV| pred_step(g, c, cur, it) ==> col_has(cur, it)
}

/// `cur` is closed under the complete rule at column `j`.
pub open spec fn comp_closed(prior: Seq<Seq<EntryV>>, j: int, cur: Seq<EntryV>) -> bool {
    forall|it: ItemV| comp_step(prior, j, cur, it) ==> col_has(cur, it)
}

// ---------------------------------------------------------------------------
// Lemmas about the staged membership predicates.
// ---------------------------------------------------------------------------
/// Stage membership only grows with the stage.
proof fn lemma_col0_mono(g: Seq<ProdV>, s: Seq<char>, n1: nat, n2: nat, it: ItemV)
    requires
        n1 <= n2,
        in_col0(g, s, n1, it),
    ensures
        in_col0(g, s, n2, it),
    decreases n2,
{
    if n1 < n2 {
        lemma_col0_mono(g, s, n1, (n2 - 1) as nat, it);
    }
}

/// Stage membership only grows with the stage.
proof fn lemma_colj_mono(
    g: Seq<ProdV>,
    prior: Seq<Seq<EntryV>>,
    tok: Seq<char>,
    j: int,
    n1: nat,
    n2: nat,
    it: ItemV,
)
    requires
        n1 <= n2,
        in_colj(g, prior, tok, j, n1, it),
    ensures
        in_colj(g, prior, tok, j, n2, it),
    decreases n2,
{
    if n1 < n2 {
        lemma_colj_mono(g, prior, tok, j, n1, (n2 - 1) as nat, it);
    }
}

/// A column whose members are all stage-reachable, and which contains every
/// seed and is closed under predict, contains everything stage-reachable.
proof fn lemma_col0_closed_complete(
    g: Seq<ProdV>,
    s: Seq<char>,
    cur: Seq<EntryV>,
    n: nat,
    it: ItemV,
)
    requires
        forall|x: ItemV| is_seed(g, s, x) ==> col_has(cur, x),
        pred_closed(g, 0, cur),
        in_col0(g, s, n, it),
    ensures
        col_has(cur, it),
    decreases n,
{
    if n == 0 {
    } else if in_col0(g, s, (n - 1) as nat, it) {
        lemma_col0_closed_complete(g, s, cur, (n - 1) as nat, it);
    } else {
        let x = choose|x: ItemV| in_col0(g, s, (n - 1) as nat, x) && predicted_from(g, 0, x, it);
        lemma_col0_closed_complete(g, s, cur, (n - 1) as nat, x);
        let xk = choose|k: int| 0 <= k < cur.len() && cur[k].item == x;
        assert(predicted_from(g, 0, cur[xk].item, it));
        assert(pred_step(g, 0, cur, it));
    }
}

/// A column whose members are all stage-reachable, and which contains the
/// whole scan base and is closed under complete and predict, contains
/// everything stage-reachable.
proof fn lemma_colj_closed_complete(
    g: Seq<ProdV>,
    prior: Seq<Seq<EntryV>>,
    tok: Seq<char>,
    j: int,
    cur: Seq<EntryV>,
    n: nat,
    it: ItemV,
)
    requires
        forall|x: ItemV| scan_base(prior, tok, j, x) ==> col_has(cur, x),
        pred_closed(g, j, cur),
        comp_closed(prior, j, cur),
        in_colj(g, prior, tok, j, n, it),
    ensures
        col_has(cur, it),
    decreases n,
{
    if n == 0 {
    } else if in_colj(g, prior, tok, j, (n - 1) as nat, it) {
        lemma_colj_closed_complete(g, prior, tok, j, cur, (n - 1) as nat, it);
    } else if exists|x: ItemV|
        in_colj(g, prior, tok, j, (n - 1) as nat, x) && predicted_from(g, j, x, it) {
        let x = choose|x: ItemV|
            in_colj(g, prior, tok, j, (n - 1) as nat, x) && predicted_from(g, j, x, it);
        lemma_colj_closed_complete(g, prior, tok, j, cur, (n - 1) as nat, x);
        let xk = choose|k: int| 0 <= k < cur.len() && cur[k].item == x;
        assert(predicted_from(g, j, cur[xk].item, it));
        assert(pred_step(g, j, cur, it));
    } else {
        let (b, mu) = choose|b: ItemV, mu: ItemV|
            {
                &&& in_colj(g, prior, tok, j, (n - 1) as nat, b)
                &&& completed_from(j, mu, b, it)
                &&& if b.start < j {
                    0 <= b.start && col_has(prior[b.start], mu)
                } else {
                    in_colj(g, prior, tok, j, (n - 1) as nat, mu)
                }
            };
        lemma_colj_closed_complete(g, prior, tok, j, cur, (n - 1) as nat, b);
        let bk = choose|k: int| 0 <= k < cur.len() && cur[k].item == b;
        if b.start < j {
            assert(completed_from(j, mu, cur[bk].item, it));
            assert(comp_step_at(prior, j, cur, bk, it));
        } else {
            lemma_colj_closed_complete(g, prior, tok, j, cur, (n - 1) as nat, mu);
            assert(completed_from(j, mu, cur[bk].item, it));
            assert(comp_step_at(prior, j, cur, bk, it));
        }
        assert(comp_step(prior, j, cur, it));
    }
}

/// Members of a column of stage-reachable items stay stage-reachable when
/// the column is derived from one step further.
proof fn lemma_pred_step_member_col0(
    g: Seq<ProdV>,
    s: Seq<char>,
    cur: Seq<EntryV>,
    it: ItemV,
)
    requires
        forall|k: int| 0 <= k < cur.len() ==> col0_member(g, s, (#[trigger] cur[k]).item),
        pred_step(g, 0, cur, it),
    ensures
        col0_member(g, s, it),
{
    let xk = choose|x: int| 0 <= x < cur.len() && predicted_from(g, 0, cur[x].item, it);
    assert(col0_member(g, s, cur[xk].item));
    let n = choose|n: nat| in_col0(g, s, n, cur[xk].item);
    assert(in_col0(g, s, n + 1, it));
}

/// A one-step derivation from stage-reachable items is stage-reachable.
proof fn lemma_step_member_colj(
    g: Seq<ProdV>,
    prior: Seq<Seq<EntryV>>,
    tok: Seq<char>,
    j: int,
    cur: Seq<EntryV>,
    it: ItemV,
)
    requires
        forall|k: int|
            0 <= k < cur.len() ==> colj_member(g, prior, tok, j, (#[trigger] cur[k]).item),
        pred_step(g, j, cur, it) || comp_step(prior, j, cur, it),
    ensures
        colj_member(g, prior, tok, j, it),
{
    if pred_step(g, j, cur, it) {
        let xk = choose|x: int| 0 <= x < cur.len() && predicted_from(g, j, cur[x].item, it);
        let n = choose|n: nat| in_colj(g, prior, tok, j, n, cur[xk].item);
        assert(in_colj(g, prior, tok, j, n + 1, it));
    } else {
        let bk = choose|bk: int| 0 <= bk < cur.len() && comp_step_at(prior, j, cur, bk, it);
        let mu = choose|mu: ItemV|
            {
                &&& completed_from(j, mu, cur[bk].item, it)
                &&& if cur[bk].item.start < j {
                    0 <= cur[bk].item.start && col_has(prior[cur[bk].item.start], mu)
                } else {
                    col_has(cur, mu)
                }
            };
        let b = cur[bk].item;
        let nb = choose|n: nat| in_colj(g, prior, tok, j, n, b);
        if b.start < j {
            assert(in_colj(g, prior, tok, j, nb + 1, it));
        } else {
            let mk = choose|k: int| 0 <= k < cur.len() && cur[k].item == mu;
            let nm = choose|n: nat| in_colj(g, prior, tok, j, n, mu);
            let n = if nb >= nm {
                nb
            } else {
                nm
            };
            lemma_colj_mono(g, prior, tok, j, nb, n, b);
            lemma_colj_mono(g, prior, tok, j, nm, n, mu);
            assert(in_colj(g, prior, tok, j, n + 1, it));
        }
    }
}

/// A column referencing an unknown nonterminal witnesses that the grammar is
/// not closed.
proof fn lemma_unknown_not_closed(g: Seq<ProdV>, c: int, cur: Seq<EntryV>, k: int)
    requires
        col_wf(g, c, cur),
        0 <= k < cur.len(),
        cur[k].item.dot < cur[k].item.exp.len(),
        cur[k].item.next_sym() is NonTerm,
        !has_key(g, cur[k].item.next_sym()->NonTerm_0),
    ensures
        !grammar_closed(g),
{
    let x = cur[k].item;
    assert(has_prod(g, x.name, x.exp));
    let p = choose|p: int| 0 <= p < g.len() && g[p].lhs == x.name && g[p].rhs == x.exp;
    assert(g[p].rhs[x.dot] is NonTerm);
    assert(g[p].rhs[x.dot]->NonTerm_0 == x.next_sym()->NonTerm_0);
}

// ---------------------------------------------------------------------------
// Executable phases.
// ---------------------------------------------------------------------------
/// A batch of pending entries appended after a provenance-well-formed
/// column leaves it provenance-well-formed: the old entries keep their
/// indexes, and each new entry's witnesses sit below the old length.
proof fn lemma_prov_wf_append_batch(
    prior: Seq<Seq<EntryV>>,
    tok: Seq<char>,
    j: int,
    oldv: Seq<EntryV>,
    finalv: Seq<EntryV>,
    added: Seq<EntryV>,
)
    requires
        prov_wf(prior, tok, j, oldv),
        oldv.len() <= finalv.len(),
        finalv.take(oldv.len() as int) == oldv,
        forall|k: int| oldv.len() <= k < finalv.len() ==> #[trigger] from_batch(finalv, added, k),
        forall|e: int|
            0 <= e < added.len() ==> prov_pending(prior, tok, j, oldv, #[trigger] added[e]),
    ensures
        prov_wf(prior, tok, j, finalv),
{
    assert forall|k: int| 0 <= k < oldv.len() implies finalv[k] == oldv[k] by {
        assert(finalv.take(oldv.len() as int)[k] == finalv[k]);
    }
    assert forall|k: int| 0 <= k < finalv.len() implies prov_entry_wf(
        prior,
        tok,
        j,
        finalv,
        k,
    ) by {
        if k < oldv.len() {
            assert(prov_entry_wf(prior, tok, j, oldv, k));
            match oldv[k].by {
                InsertedBy::Pred => {},
                InsertedBy::Scan(_) => {},
                InsertedBy::Comp(l, r) => {
                    let it = oldv[k].item;
                    let kb = choose|kb: int|
                        0 <= kb < k && completed_matches(
                            (#[trigger] oldv[kb]).item,
                            it.exp[it.dot - 1]->NonTerm_0,
                            r.start as int,
                            j,
                        );
                    assert(finalv[kb] == oldv[kb]);
                    assert(completed_matches(
                        finalv[kb].item,
                        it.exp[it.dot - 1]->NonTerm_0,
                        r.start as int,
                        j,
                    ));
                    if !(l.end < j) {
                        let km = choose|km: int|
                            0 <= km < k && (#[trigger] oldv[km]).item == comp_mu_of(it, l);
                        assert(finalv[km] == oldv[km]);
                        assert(finalv[km].item == comp_mu_of(it, l));
                    }
                },
            }
        } else {
            assert(from_batch(finalv, added, k));
            let e = choose|e: int| 0 <= e < added.len() && finalv[k] == #[trigger] added[e];
            assert(prov_pending(prior, tok, j, oldv, added[e]));
            match finalv[k].by {
                InsertedBy::Pred => {},
                InsertedBy::Scan(_) => {},
                InsertedBy::Comp(l, r) => {
                    let it = finalv[k].item;
                    let kb = choose|kb: int|
                        0 <= kb < oldv.len() && completed_matches(
                            (#[trigger] oldv[kb]).item,
                            it.exp[it.dot - 1]->NonTerm_0,
                            r.start as int,
                            j,
                        );
                    assert(finalv[kb] == oldv[kb]);
                    assert(completed_matches(
                        finalv[kb].item,
                        it.exp[it.dot - 1]->NonTerm_0,
                        r.start as int,
                        j,
                    ));
                    if !(l.end < j) {
                        let mu = comp_mu_of(it, l);
                        let km = choose|km: int|
                            0 <= km < oldv.len() && (#[trigger] oldv[km]).item == mu;
                        assert(finalv[km] == oldv[km]);
                        assert(finalv[km].item == mu);
                    }
                },
            }
        }
    }
}

/// The views of a sequence of columns.
pub open spec fn cols_view(s: Seq<Vec<Entry>>) -> Seq<Seq<EntryV>> {
    s.map_values(|v: Vec<Entry>| entries_view(v@))
}

/// Whether `it` can be advanced over the terminal `tok`.
pub open spec fn item_scannable(it: ItemV, tok: Seq<char>) -> bool {
    0 <= it.dot < it.exp.len() && it.next_sym() == TokenV::Term(tok)
}

/// Whether some item of `col` can be advanced over the terminal `tok`.
pub open spec fn spec_can_scan(col: Seq<EntryV>, tok: Seq<char>) -> bool {
    exists|k: int| 0 <= k < col.len() && item_scannable((#[trigger] col[k]).item, tok)
}

// ---------------------------------------------------------------------------
// Provenance well-formedness.
// ---------------------------------------------------------------------------
/// The predecessor a scan into column `j` advanced: the same dotted
/// production one symbol earlier, ending at the previous column.
pub open spec fn scan_pred_of(it: ItemV, j: int) -> ItemV {
    ItemV { dot: it.dot - 1, end: j - 1, ..it }
}

/// The predecessor a completion advanced, placed at the recorded left range.
pub open spec fn comp_mu_of(it: ItemV, l: Span) -> ItemV {
    ItemV { dot: it.dot - 1, start: l.start as int, end: l.end as int, ..it }
}

/// Whether `x` is a completed item named `y` spanning `s .. j`.
pub open spec fn completed_matches(x: ItemV, y: Seq<char>, s: int, j: int) -> bool {
    x.name == y && x.is_complete() && x.start == s && x.end == j
}

/// Whether `it` expects a nonterminal next that the grammar does not
/// define.
pub open spec fn unknown_ref(g: Seq<ProdV>, it: ItemV) -> bool {
    &&& 0 <= it.dot < it.exp.len()
    &&& it.next_sym() is NonTerm
    &&& !has_key(g, it.next_sym()->NonTerm_0)
}

/// What a `Scan` tag promises: the matched symbol is this column's token,
/// the recorded range is the predecessor's, and the predecessor is held by
/// the previous column.
pub open spec fn scan_prov(
    prior: Seq<Seq<EntryV>>,
    tok: Seq<char>,
    j: int,
    it: ItemV,
    r: Span,
) -> bool {
    &&& j >= 1
    &&& 1 <= it.dot <= it.exp.len()
    &&& it.exp[it.dot - 1] == TokenV::Term(tok)
    &&& r.start == it.start
    &&& r.end == j - 1
    &&& col_has(prior[j - 1], scan_pred_of(it, j))
}

/// The range arithmetic a `Comp` tag promises: the left range runs from the
/// item's origin to the completed child's origin, the right range from there
/// to this column, and the matched symbol is a nonterminal.
pub open spec fn comp_prov_shape(it: ItemV, l: Span, r: Span, j: int) -> bool {
    &&& 1 <= it.dot <= it.exp.len()
    &&& it.exp[it.dot - 1] is NonTerm
    &&& l.start == it.start
    &&& l.end == r.start
    &&& r.end == j
}

/// What a `Comp` tag promises of an entry about to join a column whose
/// present entries are `cur`: the range arithmetic, a completed child with
/// the recorded right range among `cur`, and the predecessor at the child's
/// origin column — in the chart when older, among `cur` when this column.
pub open spec fn comp_pending(
    prior: Seq<Seq<EntryV>>,
    j: int,
    cur: Seq<EntryV>,
    it: ItemV,
    l: Span,
    r: Span,
) -> bool {
    &&& comp_prov_shape(it, l, r, j)
    &&& exists|kb: int|
        0 <= kb < cur.len() && completed_matches(
            (#[trigger] cur[kb]).item,
            it.exp[it.dot - 1]->NonTerm_0,
            r.start as int,
            j,
        )
    &&& if l.end < j {
        col_has(prior[l.end as int], comp_mu_of(it, l))
    } else {
        l.end == j && col_has(cur, comp_mu_of(it, l))
    }
}

/// Provenance facts of an entry about to be appended to a column whose
/// present entries are `cur`.
pub open spec fn prov_pending(
    prior: Seq<Seq<EntryV>>,
    tok: Seq<char>,
    j: int,
    cur: Seq<EntryV>,
    e: EntryV,
) -> bool {
    match e.by {
        InsertedBy::Pred => e.item.dot == 0 && e.item.start == j,
        InsertedBy::Scan(r) => scan_prov(prior, tok, j, e.item, r),
        InsertedBy::Comp(l, r) => comp_pending(prior, j, cur, e.item, l, r),
    }
}

/// Provenance well-formedness of the entry at `k` of the column at `j`: as
/// [`prov_pending`], with the same-column witnesses of a completion at
/// strictly earlier indexes — which is what lets a reconstruction that walks
/// provenance backwards terminate.
pub open spec fn prov_entry_wf(
    prior: Seq<Seq<EntryV>>,
    tok: Seq<char>,
    j: int,
    col: Seq<EntryV>,
    k: int,
) -> bool {
    let it = col[k].item;
    match col[k].by {
        InsertedBy::Pred => it.dot == 0 && it.start == j,
        InsertedBy::Scan(r) => scan_prov(prior, tok, j, it, r),
        InsertedBy::Comp(l, r) => {
            &&& comp_prov_shape(it, l, r, j)
            &&& exists|kb: int|
                0 <= kb < k && completed_matches(
                    (#[trigger] col[kb]).item,
                    it.exp[it.dot - 1]->NonTerm_0,
                    r.start as int,
                    j,
                )
            &&& if l.end < j {
                col_has(prior[l.end as int], comp_mu_of(it, l))
            } else {
                l.end == j && exists|km: int|
                    0 <= km < k && (#[trigger] col[km]).item == comp_mu_of(it, l)
            }
        },
    }
}

/// Provenance well-formedness of a whole column.
pub open spec fn prov_wf(
    prior: Seq<Seq<EntryV>>,
    tok: Seq<char>,
    j: int,
    col: Seq<EntryV>,
) -> bool {
    forall|k: int| 0 <= k < col.len() ==> prov_entry_wf(prior, tok, j, col, k)
}

/// Appending a pending entry keeps a column provenance-well-formed.
proof fn lemma_prov_wf_push(
    prior: Seq<Seq<EntryV>>,
    tok: Seq<char>,
    j: int,
    col: Seq<EntryV>,
    e: EntryV,
)
    requires
        prov_wf(prior, tok, j, col),
        prov_pending(prior, tok, j, col, e),
    ensures
        prov_wf(prior, tok, j, col.push(e)),
{
    let newcol = col.push(e);
    assert forall|k: int| 0 <= k < newcol.len() implies prov_entry_wf(
        prior,
        tok,
        j,
        newcol,
        k,
    ) by {
        if k < col.len() {
            assert(newcol[k] == col[k]);
            assert(prov_entry_wf(prior, tok, j, col, k));
            match col[k].by {
                InsertedBy::Pred => {},
                InsertedBy::Scan(_) => {},
                InsertedBy::Comp(l, r) => {
                    let it = col[k].item;
                    let kb = choose|kb: int|
                        0 <= kb < k && completed_matches(
                            (#[trigger] col[kb]).item,
                            it.exp[it.dot - 1]->NonTerm_0,
                            r.start as int,
                            j,
                        );
                    assert(newcol[kb] == col[kb]);
                    assert(completed_matches(
                        newcol[kb].item,
                        it.exp[it.dot - 1]->NonTerm_0,
                        r.start as int,
                        j,
                    ));
                    if !(l.end < j) {
                        let km = choose|km: int|
                            0 <= km < k && (#[trigger] col[km]).item == comp_mu_of(it, l);
                        assert(newcol[km] == col[km]);
                        assert(newcol[km].item == comp_mu_of(it, l));
                    }
                },
            }
        } else {
            assert(newcol[k] == e);
            match e.by {
                InsertedBy::Pred => {},
                InsertedBy::Scan(_) => {},
                InsertedBy::Comp(l, r) => {
                    let it = e.item;
                    let kb = choose|kb: int|
                        0 <= kb < col.len() && completed_matches(
                            (#[trigger] col[kb]).item,
                            it.exp[it.dot - 1]->NonTerm_0,
                            r.start as int,
                            j,
                        );
                    assert(newcol[kb] == col[kb]);
                    assert(completed_matches(
                        newcol[kb].item,
                        it.exp[it.dot - 1]->NonTerm_0,
                        r.start as int,
                        j,
                    ));
                    if !(l.end < j) {
                        let km = choose|km: int|
                            0 <= km < col.len() && (#[trigger] col[km]).item == comp_mu_of(it, l);
                        assert(newcol[km] == col[km]);
                        assert(newcol[km].item == comp_mu_of(it, l));
                    }
                },
            }
        }
    }
}

/// Provenance facts only look at columns before `j`, so they survive the
/// chart growing at the end.
proof fn lemma_prov_wf_extend(
    prior_old: Seq<Seq<EntryV>>,
    prior_new: Seq<Seq<EntryV>>,
    tok: Seq<char>,
    j: int,
    col: Seq<EntryV>,
)
    requires
        j <= prior_old.len(),
        forall|x: int| 0 <= x < j ==> prior_new[x] == prior_old[x],
        prov_wf(prior_old, tok, j, col),
    ensures
        prov_wf(prior_new, tok, j, col),
{
    assert forall|k: int| 0 <= k < col.len() implies prov_entry_wf(
        prior_new,
        tok,
        j,
        col,
        k,
    ) by {
        assert(prov_entry_wf(prior_old, tok, j, col, k));
        match col[k].by {
            InsertedBy::Pred => {},
            InsertedBy::Scan(_) => {
                assert(prior_new[j - 1] == prior_old[j - 1]);
            },
            InsertedBy::Comp(l, r) => {
                if l.end < j {
                    assert(prior_new[l.end as int] == prior_old[l.end as int]);
                }
            },
        }
    }
}


/// The scan phase: every item of `prev` whose next symbol is the terminal
/// `token` is advanced into a fresh column `j`, each resulting item kept
/// once, under the provenance of its first-encountered predecessor.
#[verifier::loop_isolation(false)]
fn scan_phase(
    prev: &Vec<Entry>,
    token: &String,
    j: usize,
    Ghost(g): Ghost<Seq<ProdV>>,
    Ghost(prior): Ghost<Seq<Seq<EntryV>>>,
) -> (out: Vec<Entry>)
    requires
        j >= 1,
        j - 1 < prior.len(),
        prior[j - 1] == entries_view(prev@),
        col_wf(g, j - 1, entries_view(prev@)),
    ensures
        col_wf(g, j as int, entries_view(out@)),
        prov_wf(prior, token@, j as int, entries_view(out@)),
        forall|it: ItemV|
            col_has(entries_view(out@), it) <==> scan_base_col(
                entries_view(prev@),
                token@,
                j as int,
                it,
            ),
{
    let ghost prevv = entries_view(prev@);
    let mut out: Vec<Entry> = Vec::new();
    let mut k: usize = 0;
    while k < prev.len()
        invariant
            k <= prev.len(),
            col_wf(g, j as int, entries_view(out@)),
            prov_wf(prior, token@, j as int, entries_view(out@)),
            forall|it: ItemV|
                col_has(entries_view(out@), it) <==> exists|a: int|
                    0 <= a < k && scanned_from(token@, j as int, (#[trigger] prevv[a]).item, it),
        decreases prev.len() - k,
    {
        let item_ref = &prev[k].item;
        let ghost pre = entries_view(out@);
        let is_match: bool = match item_ref.next_symbol() {
            Some(tk) => match tk {
                Token::Term(v) => *v == *token,
                Token::NonTerm(_) => false,
            },
            None => false,
        };
        assert(is_match == item_scannable(prevv[k as int].item, token@));
        if is_match {
            let adv = item_ref.advanced(j);
            let rng = item_ref.range();
            assert(scanned_from(token@, j as int, prevv[k as int].item, adv@));
            if !contains_item(&out, &adv) {
                let fresh_entry = Entry { item: adv, by: InsertedBy::Scan(rng) };
                proof {
                    assert(scan_pred_of(fresh_entry.item@, j as int) =~= prevv[k as int].item);
                    assert(col_has(prior[j - 1], scan_pred_of(fresh_entry.item@, j as int)));
                    assert(prov_pending(
                        prior,
                        token@,
                        j as int,
                        entries_view(out@),
                        fresh_entry@,
                    ));
                    lemma_prov_wf_push(
                        prior,
                        token@,
                        j as int,
                        entries_view(out@),
                        fresh_entry@,
                    );
                }
                push_new(&mut out, fresh_entry);
            }
        }
        proof {
            if is_match {
                let adv = prevv[k as int].item.advanced(j as int);
                assert(col_has(entries_view(out@), adv));
                assert forall|it: ItemV| col_has(entries_view(out@), it) <==> exists|a: int|
                    0 <= a < k + 1 && scanned_from(
                        token@,
                        j as int,
                        (#[trigger] prevv[a]).item,
                        it,
                    ) by {
                    if col_has(entries_view(out@), it) {
                        if col_has(pre, it) {
                        } else {
                            assert(it == adv);
                            assert(scanned_from(token@, j as int, prevv[k as int].item, it));
                        }
                    }
                    if exists|a: int|
                        0 <= a < k + 1 && scanned_from(
                            token@,
                            j as int,
                            (#[trigger] prevv[a]).item,
                            it,
                        ) {
                        let a = choose|a: int|
                            0 <= a < k + 1 && scanned_from(
                                token@,
                                j as int,
                                (#[trigger] prevv[a]).item,
                                it,
                            );
                        if a < k {
                            assert(col_has(pre, it));
                        } else {
                            assert(it == adv);
                        }
                        assert(col_has(entries_view(out@), it));
                    }
                }
            } else {
                assert forall|it: ItemV|
                    !scanned_from(token@, j as int, prevv[k as int].item, it) by {
                    assert(!item_scannable(prevv[k as int].item, token@));
                }
            }
        }
        k += 1;
    }
    out
}

/// One pass of the predict rule over `cur` at column `j`: returns the
/// derivable entries that `cur` lacks, or the error if a predicted
/// nonterminal has no production.
#[verifier::loop_isolation(false)]
fn predict_once(grammar: &Grammar, cur: &Vec<Entry>, j: usize) -> (r: Result<Vec<Entry>, Error>)
    requires
        col_wf(grammar@, j as int, entries_view(cur@)),
    ensures
        match r {
            Ok(added) => {
                &&& forall|e: int|
                    0 <= e < entries_view(added@).len() ==> !col_has(
                        entries_view(cur@),
                        (#[trigger] entries_view(added@)[e]).item,
                    )
                &&& forall|e: int|
                    0 <= e < entries_view(added@).len() ==> pred_step(
                        grammar@,
                        j as int,
                        entries_view(cur@),
                        (#[trigger] entries_view(added@)[e]).item,
                    )
                &&& added@.len() == 0 ==> pred_closed(grammar@, j as int, entries_view(cur@))
                &&& forall|e: int|
                    0 <= e < entries_view(added@).len() ==> {
                        let en = #[trigger] entries_view(added@)[e];
                        en.by == InsertedBy::Pred && en.item.dot == 0 && en.item.start == j
                    }
                &&& forall|k: int|
                    0 <= k < entries_view(cur@).len() ==> !unknown_ref(
                        grammar@,
                        (#[trigger] entries_view(cur@)[k]).item,
                    )
                &&& forall|it: ItemV|
                    pred_step(grammar@, j as int, entries_view(cur@), it) ==> (col_has(
                        entries_view(cur@),
                        it,
                    ) || col_has(entries_view(added@), it))
            },
            Err(e) => {
                &&& e == Error::UnknownNonterminal
                &&& !grammar_closed(grammar@)
                &&& exists|k: int|
                    0 <= k < entries_view(cur@).len() && unknown_ref(
                        grammar@,
                        (#[trigger] entries_view(cur@)[k]).item,
                    )
            },
        },
{
    let ghost g = grammar@;
    let ghost curv = entries_view(cur@);
    let mut added: Vec<Entry> = Vec::new();
    let mut x: usize = 0;
    while x < cur.len()
        invariant
            x <= cur.len(),
            forall|e: int|
                0 <= e < entries_view(added@).len() ==> !col_has(
                    curv,
                    (#[trigger] entries_view(added@)[e]).item,
                ),
            forall|e: int|
                0 <= e < entries_view(added@).len() ==> pred_step(
                    g,
                    j as int,
                    curv,
                    (#[trigger] entries_view(added@)[e]).item,
                ),
            forall|it: ItemV, a: int|
                0 <= a < x && #[trigger] predicted_from(g, j as int, curv[a].item, it) ==> (
                col_has(curv, it) || col_has(entries_view(added@), it)),
            forall|e: int|
                0 <= e < entries_view(added@).len() ==> {
                    let en = #[trigger] entries_view(added@)[e];
                    en.by == InsertedBy::Pred && en.item.dot == 0 && en.item.start == j
                },
            forall|a: int| 0 <= a < x ==> !unknown_ref(g, (#[trigger] curv[a]).item),
        decreases cur.len() - x,
    {
        let item_ref = &cur[x].item;
        let mut pred_name: Option<&String> = None;
        if let Some(tk) = item_ref.next_symbol() {
            if let Token::NonTerm(y) = tk {
                pred_name = Some(y);
            }
        }
        assert(match pred_name {
            Some(y) => curv[x as int].item.dot < curv[x as int].item.exp.len()
                && curv[x as int].item.next_sym() == TokenV::NonTerm(y@),
            None => forall|it: ItemV| !predicted_from(g, j as int, curv[x as int].item, it),
        });
        if let Some(y) = pred_name {
            if !grammar.contains_key(y.as_str()) {
                proof {
                    lemma_unknown_not_closed(g, j as int, curv, x as int);
                    assert(unknown_ref(g, curv[x as int].item));
                }
                return Err(Error::UnknownNonterminal);
            }
            let mut p: usize = 0;
            while p < grammar.len()
                invariant
                    p <= grammar@.len(),
                    x < cur.len(),
                    forall|e: int|
                        0 <= e < entries_view(added@).len() ==> !col_has(
                            curv,
                            (#[trigger] entries_view(added@)[e]).item,
                        ),
                    forall|e: int|
                        0 <= e < entries_view(added@).len() ==> pred_step(
                            g,
                            j as int,
                            curv,
                            (#[trigger] entries_view(added@)[e]).item,
                        ),
                    forall|it: ItemV, a: int|
                        0 <= a < x && #[trigger] predicted_from(g, j as int, curv[a].item, it)
                            ==> (col_has(curv, it) || col_has(entries_view(added@), it)),
                    forall|e: int|
                        0 <= e < entries_view(added@).len() ==> {
                            let en = #[trigger] entries_view(added@)[e];
                            en.by == InsertedBy::Pred && en.item.dot == 0 && en.item.start == j
                        },
                    has_key(g, curv[x as int].item.next_sym()->NonTerm_0),
                    y@ == curv[x as int].item.next_sym()->NonTerm_0,
                    curv[x as int].item.dot < curv[x as int].item.exp.len(),
                    curv[x as int].item.next_sym() is NonTerm,
                    forall|it: ItemV|
                        {
                            &&& #[trigger] predicted_from(g, j as int, curv[x as int].item, it)
                            &&& exists|q: int|
                                0 <= q < p && g[q].lhs == it.name && g[q].rhs == it.exp
                        } ==> (col_has(curv, it) || col_has(entries_view(added@), it)),
                decreases grammar@.len() - p,
            {
                let prod = grammar.prod_at(p);
                if prod.lhs == *y {
                    let fresh = Item::init(
                        y.clone(),
                        crate::item::clone_tokens(&prod.rhs),
                        Span { start: j, end: j },
                    );
                    assert(predicted_from(g, j as int, curv[x as int].item, fresh@));
                    assert(pred_step(g, j as int, curv, fresh@));
                    let ghost freshv = fresh@;
                    let in_cur = contains_item(cur, &fresh);
                    let in_added = contains_item(&added, &fresh);
                    if !in_cur && !in_added {
                        push_new(&mut added, Entry { item: fresh, by: InsertedBy::Pred });
                    }
                    proof {
                        assert(col_has(curv, freshv) || col_has(entries_view(added@), freshv));
                        assert forall|it: ItemV|
                            {
                                &&& #[trigger] predicted_from(g, j as int, curv[x as int].item, it)
                                &&& exists|q: int|
                                    0 <= q < p + 1 && g[q].lhs == it.name && g[q].rhs == it.exp
                            } implies (col_has(curv, it) || col_has(entries_view(added@), it)) by {
                            let q = choose|q: int|
                                0 <= q < p + 1 && g[q].lhs == it.name && g[q].rhs == it.exp;
                            if q < p {
                            } else {
                                assert(it =~= freshv);
                            }
                        }
                    }
                } else {
                    proof {
                        assert forall|it: ItemV|
                            {
                                &&& #[trigger] predicted_from(g, j as int, curv[x as int].item, it)
                                &&& exists|q: int|
                                    0 <= q < p + 1 && g[q].lhs == it.name && g[q].rhs == it.exp
                            } implies (col_has(curv, it) || col_has(entries_view(added@), it)) by {
                            let q = choose|q: int|
                                0 <= q < p + 1 && g[q].lhs == it.name && g[q].rhs == it.exp;
                            assert(q < p);
                        }
                    }
                }
                p += 1;
            }
            proof {
                assert forall|it: ItemV|
                    #[trigger] predicted_from(g, j as int, curv[x as int].item, it) implies (
                col_has(curv, it) || col_has(entries_view(added@), it)) by {
                    assert(has_prod(g, it.name, it.exp));
                }
            }
        }
        proof {
            assert forall|it: ItemV, a: int|
                0 <= a < x + 1 && #[trigger] predicted_from(g, j as int, curv[a].item, it) implies (
            col_has(curv, it) || col_has(entries_view(added@), it)) by {}
            assert(!unknown_ref(g, curv[x as int].item));
        }
        x += 1;
    }
    proof {
        assert forall|it: ItemV| pred_step(g, j as int, curv, it) implies (col_has(curv, it)
            || col_has(entries_view(added@), it)) by {
            let a = choose|a: int|
                0 <= a < curv.len() && predicted_from(g, j as int, (#[trigger] curv[a]).item, it);
        }
        if added@.len() == 0 {
            assert forall|it: ItemV| pred_step(g, j as int, curv, it) implies col_has(curv, it) by {
                let a = choose|a: int|
                    0 <= a < curv.len() && predicted_from(g, j as int, (#[trigger] curv[a]).item, it);
                assert(!col_has(entries_view(added@), it));
            }
        }
    }
    Ok(added)
}

/// One pass of the complete rule over `cur` at column `j`: returns the
/// derivable entries that `cur` lacks. The predecessor of each completion is
/// sought at the completed item's origin column — in the chart, or in `cur`
/// itself for an item that derived the empty word within this column.
#[verifier::loop_isolation(false)]
fn comp_once(
    cols: &Vec<Vec<Entry>>,
    cur: &Vec<Entry>,
    j: usize,
    Ghost(g): Ghost<Seq<ProdV>>,
) -> (added: Vec<Entry>)
    requires
        j == cols@.len(),
        forall|c: int| 0 <= c < j ==> col_wf(g, c, #[trigger] cols_view(cols@)[c]),
        col_wf(g, j as int, entries_view(cur@)),
    ensures
        forall|e: int|
            0 <= e < entries_view(added@).len() ==> !col_has(
                entries_view(cur@),
                (#[trigger] entries_view(added@)[e]).item,
            ),
        forall|e: int|
            0 <= e < entries_view(added@).len() ==> comp_step(
                cols_view(cols@),
                j as int,
                entries_view(cur@),
                (#[trigger] entries_view(added@)[e]).item,
            ),
        added@.len() == 0 ==> comp_closed(cols_view(cols@), j as int, entries_view(cur@)),
        forall|e: int|
            0 <= e < entries_view(added@).len() ==> {
                let en = #[trigger] entries_view(added@)[e];
                match en.by {
                    InsertedBy::Comp(l, r) => comp_pending(
                        cols_view(cols@),
                        j as int,
                        entries_view(cur@),
                        en.item,
                        l,
                        r,
                    ),
                    _ => false,
                }
            },
        forall|it: ItemV|
            comp_step(cols_view(cols@), j as int, entries_view(cur@), it) ==> (col_has(
                entries_view(cur@),
                it,
            ) || col_has(entries_view(added@), it)),
{
    let ghost curv = entries_view(cur@);
    let ghost prior = cols_view(cols@);
    let mut added: Vec<Entry> = Vec::new();
    let mut bk: usize = 0;
    while bk < cur.len()
        invariant
            bk <= cur.len(),
            forall|e: int|
                0 <= e < entries_view(added@).len() ==> !col_has(
                    curv,
                    (#[trigger] entries_view(added@)[e]).item,
                ),
            forall|e: int|
                0 <= e < entries_view(added@).len() ==> comp_step(
                    prior,
                    j as int,
                    curv,
                    (#[trigger] entries_view(added@)[e]).item,
                ),
            forall|it: ItemV, a: int|
                0 <= a < bk && #[trigger] comp_step_at(prior, j as int, curv, a, it) ==> (col_has(
                    curv,
                    it,
                ) || col_has(entries_view(added@), it)),
            forall|e: int|
                0 <= e < entries_view(added@).len() ==> {
                    let en = #[trigger] entries_view(added@)[e];
                    match en.by {
                        InsertedBy::Comp(l, r) => comp_pending(prior, j as int, curv, en.item, l, r),
                        _ => false,
                    }
                },
        decreases cur.len() - bk,
    {
        let b_ref = &cur[bk].item;
        if b_ref.is_complete() {
            let kcol = b_ref.start;
            assert(curv[bk as int].item.start <= j);
            let src: &Vec<Entry> = if kcol < j {
                &cols[kcol]
            } else {
                cur
            };
            let ghost srcv = entries_view(src@);
            proof {
                if kcol < j {
                    assert(srcv == prior[kcol as int]);
                } else {
                    assert(srcv == curv);
                }
            }
            let mut m: usize = 0;
            while m < src.len()
                invariant
                    m <= src.len(),
                    bk < cur.len(),
                    curv[bk as int].item.is_complete(),
                    kcol == curv[bk as int].item.start,
                    srcv == entries_view(src@),
                    srcv == if kcol < j { prior[kcol as int] } else { curv },
                    forall|e: int|
                        0 <= e < entries_view(added@).len() ==> !col_has(
                            curv,
                            (#[trigger] entries_view(added@)[e]).item,
                        ),
                    forall|e: int|
                        0 <= e < entries_view(added@).len() ==> comp_step(
                            prior,
                            j as int,
                            curv,
                            (#[trigger] entries_view(added@)[e]).item,
                        ),
                    forall|it: ItemV, a: int|
                        0 <= a < bk && #[trigger] comp_step_at(prior, j as int, curv, a, it) ==> (
                        col_has(curv, it) || col_has(entries_view(added@), it)),
                    forall|it: ItemV, mm: int|
                        0 <= mm < m && #[trigger] completed_from(
                            j as int,
                            srcv[mm].item,
                            curv[bk as int].item,
                            it,
                        ) ==> (col_has(curv, it) || col_has(entries_view(added@), it)),
                    forall|e: int|
                        0 <= e < entries_view(added@).len() ==> {
                            let en = #[trigger] entries_view(added@)[e];
                            match en.by {
                                InsertedBy::Comp(l, r) => comp_pending(
                                    prior,
                                    j as int,
                                    curv,
                                    en.item,
                                    l,
                                    r,
                                ),
                                _ => false,
                            }
                        },
                decreases src.len() - m,
            {
                let mu_ref = &src[m].item;
                let is_match: bool = match mu_ref.next_symbol() {
                    Some(tk) => match tk {
                        Token::NonTerm(yy) => *yy == *b_ref.name(),
                        Token::Term(_) => false,
                    },
                    None => false,
                };
                assert(is_match == (srcv[m as int].item.dot < srcv[m as int].item.exp.len()
                    && srcv[m as int].item.next_sym() == TokenV::NonTerm(
                    curv[bk as int].item.name,
                )));
                if is_match {
                    let adv = mu_ref.advanced(j);
                    let ghost advv = adv@;
                    assert(completed_from(
                        j as int,
                        srcv[m as int].item,
                        curv[bk as int].item,
                        advv,
                    ));
                    assert(comp_step_at(prior, j as int, curv, bk as int, advv));
                    let in_cur = contains_item(cur, &adv);
                    let in_added = contains_item(&added, &adv);
                    if !in_cur && !in_added {
                        let rng = mu_ref.range();
                        let brng = b_ref.range();
                        proof {
                            assert(comp_mu_of(advv, rng) =~= srcv[m as int].item);
                            assert(completed_matches(
                                curv[bk as int].item,
                                advv.exp[advv.dot - 1]->NonTerm_0,
                                brng.start as int,
                                j as int,
                            ));
                            assert(comp_pending(prior, j as int, curv, advv, rng, brng));
                        }
                        push_new(
                            &mut added,
                            Entry { item: adv, by: InsertedBy::Comp(rng, brng) },
                        );
                    }
                    proof {
                        assert(col_has(curv, advv) || col_has(entries_view(added@), advv));
                        assert forall|it: ItemV, mm: int|
                            0 <= mm < m + 1 && #[trigger] completed_from(
                                j as int,
                                srcv[mm].item,
                                curv[bk as int].item,
                                it,
                            ) implies (col_has(curv, it) || col_has(
                            entries_view(added@),
                            it,
                        )) by {
                            if mm == m {
                                assert(it == advv);
                            }
                        }
                    }
                } else {
                    proof {
                        assert forall|it: ItemV|
                            !completed_from(
                                j as int,
                                srcv[m as int].item,
                                curv[bk as int].item,
                                it,
                            ) by {}
                    }
                }
                m += 1;
            }
            proof {
                assert forall|it: ItemV| #[trigger] comp_step_at(
                    prior,
                    j as int,
                    curv,
                    bk as int,
                    it,
                ) implies (col_has(curv, it) || col_has(entries_view(added@), it)) by {
                    let mu = choose|mu: ItemV|
                        {
                            &&& completed_from(j as int, mu, curv[bk as int].item, it)
                            &&& if curv[bk as int].item.start < j {
                                0 <= curv[bk as int].item.start && col_has(
                                    prior[curv[bk as int].item.start],
                                    mu,
                                )
                            } else {
                                col_has(curv, mu)
                            }
                        };
                    let mm = choose|mm: int| 0 <= mm < srcv.len() && srcv[mm].item == mu;
                    assert(completed_from(j as int, srcv[mm].item, curv[bk as int].item, it));
                }
            }
        } else {
            proof {
                assert forall|it: ItemV|
                    !comp_step_at(prior, j as int, curv, bk as int, it) by {
                    assert(!curv[bk as int].item.is_complete());
                }
            }
        }
        proof {
            assert forall|it: ItemV, a: int|
                0 <= a < bk + 1 && #[trigger] comp_step_at(prior, j as int, curv, a, it) implies (
            col_has(curv, it) || col_has(entries_view(added@), it)) by {}
        }
        bk += 1;
    }
    proof {
        assert forall|it: ItemV| comp_step(prior, j as int, curv, it) implies (col_has(curv, it)
            || col_has(entries_view(added@), it)) by {
            let a = choose|a: int| 0 <= a < curv.len() && comp_step_at(prior, j as int, curv, a, it);
        }
        if added@.len() == 0 {
            assert forall|it: ItemV| comp_step(prior, j as int, curv, it) implies col_has(
                curv,
                it,
            ) by {
                let a = choose|a: int| 0 <= a < curv.len() && comp_step_at(prior, j as int, curv, a, it);
                assert(!col_has(entries_view(added@), it));
            }
        }
    }
    added
}

/// An item derivable by a predict step is a well-formed item of column `c`.
proof fn lemma_pred_item_wf(g: Seq<ProdV>, c: int, cur: Seq<EntryV>, it: ItemV)
    requires
        c >= 0,
        pred_step(g, c, cur, it),
    ensures
        it.wf(),
        it.end == c,
        has_prod(g, it.name, it.exp),
{
    let x = choose|x: int| 0 <= x < cur.len() && predicted_from(g, c, (#[trigger] cur[x]).item, it);
}

/// An item derivable by a complete step is a well-formed item of column `j`.
proof fn lemma_comp_item_wf(
    g: Seq<ProdV>,
    prior: Seq<Seq<EntryV>>,
    j: int,
    cur: Seq<EntryV>,
    it: ItemV,
)
    requires
        j == prior.len(),
        forall|c: int| 0 <= c < j ==> col_wf(g, c, #[trigger] prior[c]),
        col_wf(g, j, cur),
        comp_step(prior, j, cur, it),
    ensures
        it.wf(),
        it.end == j,
        has_prod(g, it.name, it.exp),
{
    let bk = choose|bk: int| 0 <= bk < cur.len() && comp_step_at(prior, j, cur, bk, it);
    let b = cur[bk].item;
    let mu = choose|mu: ItemV|
        {
            &&& completed_from(j, mu, cur[bk].item, it)
            &&& if cur[bk].item.start < j {
                0 <= cur[bk].item.start && col_has(prior[cur[bk].item.start], mu)
            } else {
                col_has(cur, mu)
            }
        };
    if b.start < j {
        let mk = choose|k: int| 0 <= k < prior[b.start].len() && prior[b.start][k].item == mu;
        assert(prior[b.start][mk].item.wf());
        assert(has_prod(g, mu.name, mu.exp));
    } else {
        let mk = choose|k: int| 0 <= k < cur.len() && cur[k].item == mu;
        assert(cur[mk].item.wf());
        assert(has_prod(g, mu.name, mu.exp));
    }
}

/// The entry at `k` of `finalv` is one of the batch `added`.
pub open spec fn from_batch(finalv: Seq<EntryV>, added: Seq<EntryV>, k: int) -> bool {
    exists|e: int| 0 <= e < added.len() && finalv[k] == #[trigger] added[e]
}

/// Inserts each entry whose item the column does not yet hold, in order.
#[verifier::loop_isolation(false)]
fn insert_new_entries(
    cur: &mut Vec<Entry>,
    added: Vec<Entry>,
    j: usize,
    Ghost(g): Ghost<Seq<ProdV>>,
) -> (grew: bool)
    requires
        col_wf(g, j as int, entries_view(old(cur)@)),
        forall|e: int|
            0 <= e < entries_view(added@).len() ==> {
                let it = (#[trigger] entries_view(added@)[e]).item;
                &&& it.wf()
                &&& it.end == j
                &&& has_prod(g, it.name, it.exp)
                &&& !col_has(entries_view(old(cur)@), it)
            },
    ensures
        col_wf(g, j as int, entries_view(final(cur)@)),
        forall|it: ItemV|
            col_has(entries_view(final(cur)@), it) <==> (col_has(entries_view(old(cur)@), it)
                || exists|e: int|
                0 <= e < entries_view(added@).len() && (#[trigger] entries_view(added@)[e]).item
                    == it),
        final(cur)@.len() >= old(cur)@.len(),
        grew == (final(cur)@.len() > old(cur)@.len()),
        added@.len() > 0 ==> grew,
        added@.len() == 0 ==> final(cur)@ == old(cur)@,
        entries_view(final(cur)@).take(old(cur)@.len() as int) == entries_view(old(cur)@),
        forall|k: int|
            old(cur)@.len() <= k < final(cur)@.len() ==> #[trigger] from_batch(
                entries_view(final(cur)@),
                entries_view(added@),
                k,
            ),
{
    let ghost oldv = entries_view(cur@);
    let ghost orig = entries_view(added@);
    let base_len = cur.len();
    let mut added = added;
    loop
        invariant
            col_wf(g, j as int, entries_view(cur@)),
            base_len <= cur@.len(),
            added@.len() <= orig.len(),
            entries_view(added@) == orig.take(added@.len() as int),
            forall|it: ItemV|
                col_has(entries_view(cur@), it) <==> (col_has(oldv, it) || exists|e: int|
                    added@.len() <= e < orig.len() && (#[trigger] orig[e]).item == it),
            orig.len() > added@.len() ==> cur@.len() > base_len,
            added@.len() == orig.len() ==> cur@ == old(cur)@,
            entries_view(cur@).take(base_len as int) == entries_view(old(cur)@),
            forall|k: int|
                base_len <= k < cur@.len() ==> #[trigger] from_batch(
                    entries_view(cur@),
                    orig,
                    k,
                ),
        decreases added@.len(),
    {
        let ghost added_pre = added@;
        let next_entry = match added.pop() {
            Some(e) => e,
            None => {
                break ;
            },
        };
        proof {
            assert(next_entry == added_pre[added_pre.len() - 1]);
            assert(entries_view(added_pre) == orig.take(added_pre.len() as int));
            assert forall|i: int| 0 <= i < added@.len() implies #[trigger] entries_view(added@)[i]
                == orig.take(added@.len() as int)[i] by {
                assert(added@[i] == added_pre[i]);
                assert(entries_view(added_pre)[i] == orig.take(added_pre.len() as int)[i]);
            }
            assert(entries_view(added@) =~= orig.take(added@.len() as int));
            assert(entries_view(added_pre)[added_pre.len() - 1] == next_entry@);
            assert(orig.take(added_pre.len() as int)[added_pre.len() - 1] == orig[added_pre.len()
                - 1]);
            assert(next_entry@ == orig[added@.len() as int]);
        }
        let ghost pre = entries_view(cur@);
        if !contains_item(cur, &next_entry.item) {
            let ghost ev = next_entry@;
            push_new(cur, next_entry);
        }
        proof {
            assert forall|it: ItemV|
                col_has(entries_view(cur@), it) <==> (col_has(oldv, it) || exists|e: int|
                    added@.len() <= e < orig.len() && (#[trigger] orig[e]).item == it) by {
                let enew = added@.len() as int;
                if col_has(entries_view(cur@), it) {
                    if col_has(pre, it) {
                        if !col_has(oldv, it) {
                            let e = choose|e: int|
                                enew + 1 <= e < orig.len() && (#[trigger] orig[e]).item == it;
                            assert(enew <= e < orig.len() && orig[e].item == it);
                        }
                    } else {
                        assert(orig[enew].item == it);
                    }
                }
                if !col_has(oldv, it) && exists|e: int|
                    enew <= e < orig.len() && (#[trigger] orig[e]).item == it {
                    let e = choose|e: int| enew <= e < orig.len() && (#[trigger] orig[e]).item == it;
                    if e == enew {
                        assert(col_has(entries_view(cur@), it));
                    } else {
                        assert(col_has(pre, it));
                        assert(col_has(entries_view(cur@), it));
                    }
                }
            }
            assert(cur@.len() > base_len) by {
                if !col_has(pre, orig[added@.len() as int].item) {
                } else {
                    assert(col_has(entries_view(cur@), orig[added@.len() as int].item));
                    assert(!col_has(oldv, orig[added@.len() as int].item));
                }
            }
            assert forall|k: int|
                base_len <= k < cur@.len() implies #[trigger] from_batch(
                entries_view(cur@),
                orig,
                k,
            ) by {
                if k < pre.len() {
                    assert(from_batch(pre, orig, k));
                    let e = choose|e: int| 0 <= e < orig.len() && pre[k] == #[trigger] orig[e];
                    assert(entries_view(cur@)[k] == pre[k]);
                } else {
                    assert(entries_view(cur@)[k] == orig[added@.len() as int]);
                }
            }
        }
    }
    proof {
        assert(entries_view(added@) =~= Seq::<EntryV>::empty());
        if orig.len() > 0 {
            assert(cur@.len() > base_len);
        }
    }
    cur.len() > base_len
}

// ---------------------------------------------------------------------------
// The chart.
// ---------------------------------------------------------------------------
/// An item of the final column that witnesses acceptance for start symbol
/// `s`: a completed production of `s` spanning the whole input.
pub open spec fn is_final_item(it: ItemV, s: Seq<char>) -> bool {
    it.name == s && it.is_complete() && it.start == 0
}

/// Whether a chart accepts: its last column holds a final item.
pub open spec fn accepting_col(col: Seq<EntryV>, s: Seq<char>) -> bool {
    exists|k: int| 0 <= k < col.len() && is_final_item((#[trigger] col[k]).item, s)
}

/// The Earley chart: a frozen grammar, the start nonterminal, and one column
/// per recognized input position.
#[derive(Debug, Clone)]
pub struct Table {
    cols: Vec<Vec<Entry>>,
    grammar: Grammar,
    initial: String,
    seen: Vec<String>,
}

impl Table {
    /// The chart columns.
    pub closed spec fn columns(&self) -> Seq<Seq<EntryV>> {
        cols_view(self.cols@)
    }

    /// The grammar the chart was built against.
    pub closed spec fn gram(&self) -> Seq<ProdV> {
        self.grammar@
    }

    /// The start nonterminal.
    pub closed spec fn init_name(&self) -> Seq<char> {
        self.initial@
    }

    /// The terminals scanned so far, in order: one per column after the
    /// first.
    pub closed spec fn tokens(&self) -> Seq<Seq<char>> {
        strs_view(self.seen@)
    }

    /// The token the column at `j` was scanned over.
    pub open spec fn tok_of(&self, j: int) -> Seq<char> {
        if j >= 1 {
            self.tokens()[j - 1]
        } else {
            Seq::empty()
        }
    }

    /// Chart sanity: at least one column, each well-formed at its index.
    pub open spec fn wf(&self) -> bool {
        &&& self.columns().len() >= 1
        &&& self.columns().len() == self.tokens().len() + 1
        &&& forall|c: int|
            0 <= c < self.columns().len() ==> col_wf(self.gram(), c, #[trigger] self.columns()[c])
        &&& forall|c: int|
            0 <= c < self.columns().len() ==> prov_wf(
                self.columns(),
                self.tok_of(c),
                c,
                #[trigger] self.columns()[c],
            )
    }

    /// Starts a chart for `grammar` and start nonterminal `initial`: column 0
    /// is exactly the predict-closure of the seed items. Fails with
    /// `UnknownInitial` when the grammar has no production for `initial`, and
    /// with `UnknownNonterminal` when closing column 0 predicts a nonterminal
    /// that has none.
    #[verifier::loop_isolation(false)]
    pub fn new(grammar: Grammar, initial: &str) -> (r: Result<Table, Error>)
        ensures
            match r {
                Ok(tb) => {
                    &&& tb.wf()
                    &&& tb.gram() == grammar@
                    &&& tb.init_name() == initial@
                    &&& tb.columns().len() == 1
                    &&& forall|it: ItemV|
                        col_has(tb.columns()[0], it) <==> col0_member(grammar@, initial@, it)
                    &&& has_key(grammar@, initial@)
                    &&& tb.tokens() == Seq::<Seq<char>>::empty()
                },
                Err(e) => {
                    ||| e == Error::UnknownInitial && !has_key(grammar@, initial@)
                    ||| e == Error::UnknownNonterminal && !grammar_closed(grammar@)
                },
            },
            !has_key(grammar@, initial@) ==> (r matches Err(e) && e == Error::UnknownInitial),
            has_key(grammar@, initial@) && grammar_closed(grammar@) ==> r is Ok,
            has_key(grammar@, initial@) ==> ((r matches Err(e) && e == Error::UnknownNonterminal)
                <==> exists|it: ItemV|
                col0_member(grammar@, initial@, it) && unknown_ref(grammar@, it)),
    {
        let ghost g = grammar@;
        if !grammar.contains_key(initial) {
            return Err(Error::UnknownInitial);
        }
        let init_string = initial.to_owned();
        let mut cur: Vec<Entry> = Vec::new();
        let mut p: usize = 0;
        while p < grammar.len()
            invariant
                p <= g.len(),
                col_wf(g, 0, entries_view(cur@)),
                forall|k: int|
                    0 <= k < entries_view(cur@).len() ==> {
                        let en = #[trigger] entries_view(cur@)[k];
                        en.by == InsertedBy::Pred && en.item.dot == 0 && en.item.start == 0
                    },
                forall|it: ItemV|
                    col_has(entries_view(cur@), it) <==> exists|q: int|
                        0 <= q < p && (#[trigger] g[q]).lhs == initial@ && it == (ItemV {
                            name: initial@,
                            exp: g[q].rhs,
                            dot: 0,
                            start: 0,
                            end: 0,
                        }),
            decreases g.len() - p,
        {
            let prod = grammar.prod_at(p);
            let ghost pre = entries_view(cur@);
            let mut seeded = false;
            if prod.lhs == init_string {
                let fresh = Item::init(
                    init_string.clone(),
                    crate::item::clone_tokens(&prod.rhs),
                    Span { start: 0, end: 0 },
                );
                seeded = true;
                assert(fresh@ == (ItemV {
                    name: initial@,
                    exp: g[p as int].rhs,
                    dot: 0,
                    start: 0,
                    end: 0,
                }));
                if !contains_item(&cur, &fresh) {
                    push_new(&mut cur, Entry { item: fresh, by: InsertedBy::Pred });
                }
            }
            proof {
                assert forall|it: ItemV|
                    col_has(entries_view(cur@), it) <==> exists|q: int|
                        0 <= q < p + 1 && (#[trigger] g[q]).lhs == initial@ && it == (ItemV {
                            name: initial@,
                            exp: g[q].rhs,
                            dot: 0,
                            start: 0,
                            end: 0,
                        }) by {
                    let seed_p = ItemV {
                        name: initial@,
                        exp: g[p as int].rhs,
                        dot: 0,
                        start: 0,
                        end: 0,
                    };
                    if col_has(entries_view(cur@), it) && !col_has(pre, it) {
                        assert(seeded && it == seed_p);
                    }
                    if exists|q: int|
                        0 <= q < p + 1 && (#[trigger] g[q]).lhs == initial@ && it == (ItemV {
                            name: initial@,
                            exp: g[q].rhs,
                            dot: 0,
                            start: 0,
                            end: 0,
                        }) {
                        let q = choose|q: int|
                            0 <= q < p + 1 && (#[trigger] g[q]).lhs == initial@ && it == (ItemV {
                                name: initial@,
                                exp: g[q].rhs,
                                dot: 0,
                                start: 0,
                                end: 0,
                            });
                        if q < p {
                            assert(col_has(pre, it));
                            assert(col_has(entries_view(cur@), it));
                        } else {
                            assert(seeded);
                            assert(col_has(entries_view(cur@), it));
                        }
                    }
                }
            }
            p += 1;
        }
        proof {
            assert forall|it: ItemV|
                col_has(entries_view(cur@), it) <==> is_seed(g, initial@, it) by {
                if col_has(entries_view(cur@), it) {
                    assert(is_seed(g, initial@, it));
                }
                if is_seed(g, initial@, it) {
                    let q = choose|q: int|
                        0 <= q < g.len() && g[q].lhs == initial@ && g[q].rhs == it.exp;
                    assert(it =~= ItemV {
                        name: initial@,
                        exp: g[q].rhs,
                        dot: 0,
                        start: 0,
                        end: 0,
                    });
                }
            }
            assert forall|k: int|
                0 <= k < entries_view(cur@).len() implies col0_member(
                g,
                initial@,
                (#[trigger] entries_view(cur@)[k]).item,
            ) by {
                assert(in_col0(g, initial@, 0, entries_view(cur@)[k].item));
            }
        }
        loop
            invariant
                col_wf(g, 0, entries_view(cur@)),
                forall|it: ItemV| is_seed(g, initial@, it) ==> col_has(entries_view(cur@), it),
                forall|k: int|
                    0 <= k < entries_view(cur@).len() ==> col0_member(
                        g,
                        initial@,
                        (#[trigger] entries_view(cur@)[k]).item,
                    ),
                forall|k: int|
                    0 <= k < entries_view(cur@).len() ==> {
                        let en = #[trigger] entries_view(cur@)[k];
                        en.by == InsertedBy::Pred && en.item.dot == 0 && en.item.start == 0
                    },
            decreases universe_size(g, 0) - entries_view(cur@).len(),
        {
            proof {
                lemma_col_len_bound(g, 0, entries_view(cur@));
            }
            let added = match predict_once(&grammar, &cur, 0) {
                Ok(a) => a,
                Err(e) => {
                    proof {
                        let k = choose|k: int|
                            0 <= k < entries_view(cur@).len() && unknown_ref(
                                g,
                                (#[trigger] entries_view(cur@)[k]).item,
                            );
                        assert(col0_member(g, initial@, entries_view(cur@)[k].item));
                    }
                    return Err(e);
                },
            };
            if added.len() == 0 {
                break ;
            }
            let ghost snap = entries_view(cur@);
            proof {
                assert forall|e: int| 0 <= e < entries_view(added@).len() implies {
                    let it = (#[trigger] entries_view(added@)[e]).item;
                    &&& it.wf()
                    &&& it.end == 0
                    &&& has_prod(g, it.name, it.exp)
                    &&& !col_has(snap, it)
                } by {
                    lemma_pred_item_wf(g, 0, snap, entries_view(added@)[e].item);
                }
            }
            let ghost addedv = entries_view(added@);
            let ghost pre_raw0 = cur@.len();
            insert_new_entries(&mut cur, added, 0, Ghost(g));
            proof {
                assert forall|k: int|
                    0 <= k < entries_view(cur@).len() implies col0_member(
                    g,
                    initial@,
                    (#[trigger] entries_view(cur@)[k]).item,
                ) by {
                    let it = entries_view(cur@)[k].item;
                    assert(col_has(entries_view(cur@), it));
                    if !col_has(snap, it) {
                        lemma_pred_step_member_col0(g, initial@, snap, it);
                    } else {
                        let a = choose|a: int| 0 <= a < snap.len() && snap[a].item == it;
                        assert(col0_member(g, initial@, snap[a].item));
                    }
                }
                assert forall|k: int| 0 <= k < entries_view(cur@).len() implies {
                    let en = #[trigger] entries_view(cur@)[k];
                    en.by == InsertedBy::Pred && en.item.dot == 0 && en.item.start == 0
                } by {
                    if k < snap.len() {
                        assert(entries_view(cur@).take(snap.len() as int)[k]
                            == entries_view(cur@)[k]);
                        assert(entries_view(cur@)[k] == snap[k]);
                    } else {
                        assert(snap.len() == pre_raw0);
                        assert(pre_raw0 <= k < cur@.len());
                        assert(from_batch(entries_view(cur@), addedv, k));
                        let e = choose|e: int|
                            0 <= e < addedv.len() && entries_view(cur@)[k] == #[trigger] addedv[e];
                    }
                }
                lemma_col_len_bound(g, 0, entries_view(cur@));
            }
        }
        proof {
            assert forall|it: ItemV|
                col0_member(g, initial@, it) implies col_has(entries_view(cur@), it) by {
                let n = choose|n: nat| in_col0(g, initial@, n, it);
                lemma_col0_closed_complete(g, initial@, entries_view(cur@), n, it);
            }
            assert forall|it: ItemV|
                col_has(entries_view(cur@), it) implies col0_member(g, initial@, it) by {
                let k = choose|k: int|
                    0 <= k < entries_view(cur@).len() && entries_view(cur@)[k].item == it;
            }
        }
        let ghost curv = entries_view(cur@);
        let mut cols: Vec<Vec<Entry>> = Vec::new();
        cols.push(cur);
        let tb = Table { cols, grammar, initial: init_string, seen: Vec::new() };
        proof {
            assert(tb.columns() =~= seq![curv]);
            assert(tb.columns()[0] == curv);
            assert(tb.tokens() =~= Seq::<Seq<char>>::empty());
            assert forall|k: int| 0 <= k < curv.len() implies prov_entry_wf(
                tb.columns(),
                tb.tok_of(0),
                0,
                curv,
                k,
            ) by {
                assert(curv[k].by == InsertedBy::Pred);
            }
            assert(prov_wf(tb.columns(), tb.tok_of(0), 0, tb.columns()[0]));
            assert forall|it: ItemV|
                !(col0_member(g, initial@, it) && unknown_ref(g, it)) by {
                if col0_member(g, initial@, it) && unknown_ref(g, it) {
                    assert(col_has(curv, it));
                    let k = choose|k: int| 0 <= k < curv.len() && curv[k].item == it;
                    assert(!unknown_ref(g, curv[k].item));
                }
            }
        }
        Ok(tb)
    }

    /// The number of columns built so far.
    pub fn column_count(&self) -> (r: usize)
        ensures
            r == self.columns().len(),
    {
        self.cols.len()
    }

    /// The start nonterminal's name.
    pub fn initial(&self) -> (r: &String)
        ensures
            r@ == self.init_name(),
    {
        &self.initial
    }

    /// The grammar the chart was built against.
    pub fn grammar(&self) -> (r: &Grammar)
        ensures
            r@ == self.gram(),
    {
        &self.grammar
    }

    /// How many items the column at `c` holds.
    pub fn col_len(&self, c: usize) -> (r: usize)
        requires
            c < self.columns().len(),
        ensures
            r == self.columns()[c as int].len(),
    {
        self.cols[c].len()
    }

    /// The entry at index `k` of the column at `c`.
    pub fn entry_at(&self, c: usize, k: usize) -> (r: &Entry)
        requires
            c < self.columns().len(),
            k < self.columns()[c as int].len(),
        ensures
            r@ == self.columns()[c as int][k as int],
    {
        &self.cols[c][k]
    }

    /// Whether some item of the last column can be advanced over `token`.
    #[verifier::loop_isolation(false)]
    pub fn can_scan(&self, token: &String) -> (r: bool)
        requires
            self.wf(),
        ensures
            r == spec_can_scan(self.columns().last(), token@),
    {
        let last = self.cols.len() - 1;
        let col = &self.cols[last];
        let ghost colv = self.columns().last();
        proof {
            assert(colv == entries_view(col@));
            assert(col_wf(self.gram(), last as int, colv));
        }
        let mut k: usize = 0;
        while k < col.len()
            invariant
                k <= col.len(),
                forall|a: int| 0 <= a < k ==> !item_scannable((#[trigger] colv[a]).item, token@),
            decreases col.len() - k,
        {
            let item_ref = &col[k].item;
            assert(item_ref@ == colv[k as int].item && item_ref@.wf());
            let is_match: bool = match item_ref.next_symbol() {
                Some(tk) => match tk {
                    Token::Term(v) => *v == *token,
                    Token::NonTerm(_) => false,
                },
                None => false,
            };
            assert(is_match == item_scannable(colv[k as int].item, token@));
            if is_match {
                return true;
            }
            k += 1;
        }
        false
    }

    /// Whether the chart is in an accepting state: the last column holds a
    /// completed production of the start nonterminal spanning every column.
    #[verifier::loop_isolation(false)]
    pub fn accepted(&self) -> (r: bool)
        requires
            self.wf(),
        ensures
            r == accepting_col(self.columns().last(), self.init_name()),
    {
        let last = self.cols.len() - 1;
        let col = &self.cols[last];
        let ghost colv = self.columns().last();
        proof {
            assert(colv == entries_view(col@));
            assert(col_wf(self.gram(), last as int, colv));
        }
        let mut k: usize = 0;
        while k < col.len()
            invariant
                k <= col.len(),
                forall|a: int|
                    0 <= a < k ==> !is_final_item((#[trigger] colv[a]).item, self.init_name()),
            decreases col.len() - k,
        {
            let item_ref = &col[k].item;
            assert(item_ref@ == colv[k as int].item);
            if item_ref.is_complete() && item_ref.start == 0 && item_ref.name == self.initial {
                assert(is_final_item(colv[k as int].item, self.init_name()));
                return true;
            }
            k += 1;
        }
        false
    }

    /// Looks `target` up in the column at `c`, handing back the provenance
    /// it was inserted under.
    #[verifier::loop_isolation(false)]
    pub fn find_in_col(&self, c: usize, target: &Item) -> (r: Option<usize>)
        requires
            self.wf(),
            c < self.columns().len(),
        ensures
            match r {
                Some(k) => {
                    &&& k < self.columns()[c as int].len()
                    &&& self.columns()[c as int][k as int].item == target@
                    &&& forall|a: int|
                        0 <= a < k ==> (#[trigger] self.columns()[c as int][a]).item != target@
                },
                None => !col_has(self.columns()[c as int], target@),
            },
    {
        let ghost colv = self.columns()[c as int];
        let n = self.col_len(c);
        let mut k: usize = 0;
        while k < n
            invariant
                k <= n,
                n == colv.len(),
                forall|a: int| 0 <= a < k ==> (#[trigger] colv[a]).item != target@,
            decreases n - k,
        {
            let e = self.entry_at(c, k);
            if e.item.same(target) {
                return Some(k);
            }
            k += 1;
        }
        None
    }

    /// Finds the first completed item of the column at `c` that is named
    /// `name` and originates at `start`, with its provenance.
    #[verifier::loop_isolation(false)]
    pub fn find_completed(&self, c: usize, name: &String, start: usize) -> (r: Option<usize>)
        requires
            self.wf(),
            c < self.columns().len(),
        ensures
            match r {
                Some(k) => {
                    &&& k < self.columns()[c as int].len()
                    &&& completed_matches(
                        self.columns()[c as int][k as int].item,
                        name@,
                        start as int,
                        c as int,
                    )
                    &&& forall|a: int|
                        0 <= a < k ==> !completed_matches(
                            (#[trigger] self.columns()[c as int][a]).item,
                            name@,
                            start as int,
                            c as int,
                        )
                },
                None => forall|a: int|
                    0 <= a < self.columns()[c as int].len() ==> !completed_matches(
                        (#[trigger] self.columns()[c as int][a]).item,
                        name@,
                        start as int,
                        c as int,
                    ),
            },
    {
        let ghost colv = self.columns()[c as int];
        let n = self.col_len(c);
        let mut k: usize = 0;
        while k < n
            invariant
                k <= n,
                n == colv.len(),
                forall|a: int|
                    0 <= a < k ==> !completed_matches(
                        (#[trigger] colv[a]).item,
                        name@,
                        start as int,
                        c as int,
                    ),
            decreases n - k,
        {
            let e = self.entry_at(c, k);
            if e.item.is_complete() && e.item.start == start && e.item.name == *name {
                proof {
                    assert(colv[k as int].item == e.item@);
                    assert(colv[k as int].item.end == c);
                    assert(completed_matches(colv[k as int].item, name@, start as int, c as int));
                }
                return Some(k);
            }
            proof {
                assert(!completed_matches(colv[k as int].item, name@, start as int, c as int));
            }
            k += 1;
        }
        None
    }

    /// The terminals scanned so far, one per column after the first.
    pub fn tokens_vec(&self) -> (r: &Vec<String>)
        ensures
            strs_view(r@) == self.tokens(),
    {
        &self.seen
    }

    /// Builds the next column for the scanned terminal `token` and appends
    /// it: the new column holds exactly the items reachable from the scan of
    /// the previous column by completes and predicts. On `UnknownNonterminal`
    /// the chart is left unchanged.
    #[verifier::loop_isolation(false)]
    pub fn next(&mut self, token: &String) -> (r: Result<(), Error>)
        requires
            old(self).wf(),
        ensures
            final(self).gram() == old(self).gram(),
            final(self).init_name() == old(self).init_name(),
            match r {
                Ok(_) => {
                    &&& final(self).wf()
                    &&& final(self).columns().len() == old(self).columns().len() + 1
                    &&& final(self).columns().take(old(self).columns().len() as int) == old(
                        self,
                    ).columns()
                    &&& forall|it: ItemV|
                        col_has(final(self).columns().last(), it) <==> colj_member(
                            old(self).gram(),
                            old(self).columns(),
                            token@,
                            old(self).columns().len() as int,
                            it,
                        )
                },
                Err(e) => {
                    &&& e == Error::UnknownNonterminal
                    &&& *final(self) == *old(self)
                    &&& !grammar_closed(old(self).gram())
                },
            },
            r is Ok ==> final(self).tokens() == old(self).tokens().push(token@),
            grammar_closed(old(self).gram()) ==> r is Ok,
            r is Err <==> exists|it: ItemV|
                colj_member(
                    old(self).gram(),
                    old(self).columns(),
                    token@,
                    old(self).columns().len() as int,
                    it,
                ) && unknown_ref(old(self).gram(), it),
    {
        let ghost g = self.grammar@;
        let ghost prior = cols_view(self.cols@);
        let j = self.cols.len();
        proof {
            assert(entries_view(self.cols@[j - 1]@) == prior[j - 1]);
        }
        let mut cur = scan_phase(&self.cols[j - 1], token, j, Ghost(g), Ghost(prior));
        proof {
            assert forall|k: int|
                0 <= k < entries_view(cur@).len() implies colj_member(
                g,
                prior,
                token@,
                j as int,
                (#[trigger] entries_view(cur@)[k]).item,
            ) by {
                let it = entries_view(cur@)[k].item;
                assert(col_has(entries_view(cur@), it));
                assert(in_colj(g, prior, token@, j as int, 0, it));
            }
        }
        loop
            invariant
                col_wf(g, j as int, entries_view(cur@)),
                forall|it: ItemV|
                    scan_base(prior, token@, j as int, it) ==> col_has(entries_view(cur@), it),
                forall|k: int|
                    0 <= k < entries_view(cur@).len() ==> colj_member(
                        g,
                        prior,
                        token@,
                        j as int,
                        (#[trigger] entries_view(cur@)[k]).item,
                    ),
                prov_wf(prior, token@, j as int, entries_view(cur@)),
            decreases universe_size(g, j as int) - entries_view(cur@).len(),
        {
            proof {
                lemma_col_len_bound(g, j as int, entries_view(cur@));
            }
            let added_c = comp_once(&self.cols, &cur, j, Ghost(g));
            let added_p = match predict_once(&self.grammar, &cur, j) {
                Ok(a) => a,
                Err(e) => {
                    proof {
                        let k = choose|k: int|
                            0 <= k < entries_view(cur@).len() && unknown_ref(
                                g,
                                (#[trigger] entries_view(cur@)[k]).item,
                            );
                        assert(colj_member(
                            g,
                            prior,
                            token@,
                            j as int,
                            entries_view(cur@)[k].item,
                        ));
                    }
                    return Err(e);
                },
            };
            if added_c.len() == 0 && added_p.len() == 0 {
                proof {
                    assert(forall|k: int|
                        0 <= k < entries_view(cur@).len() ==> !unknown_ref(
                            g,
                            (#[trigger] entries_view(cur@)[k]).item,
                        ));
                }
                break ;
            }
            let ghost snap = entries_view(cur@);
            let c_nonempty = added_c.len() > 0;
            proof {
                assert forall|e: int| 0 <= e < entries_view(added_c@).len() implies {
                    let it = (#[trigger] entries_view(added_c@)[e]).item;
                    &&& it.wf()
                    &&& it.end == j
                    &&& has_prod(g, it.name, it.exp)
                    &&& !col_has(snap, it)
                } by {
                    lemma_comp_item_wf(g, prior, j as int, snap, entries_view(added_c@)[e].item);
                }
            }
            let ghost addedcv = entries_view(added_c@);
            let ghost addedpv = entries_view(added_p@);
            let ghost pre_raw = cur@.len();
            insert_new_entries(&mut cur, added_c, j, Ghost(g));
            let ghost mid = entries_view(cur@);
            proof {
                assert forall|e: int|
                    0 <= e < addedcv.len() implies prov_pending(
                    prior,
                    token@,
                    j as int,
                    snap,
                    #[trigger] addedcv[e],
                ) by {
                    match addedcv[e].by {
                        InsertedBy::Comp(l, r) => {
                            assert(comp_pending(prior, j as int, snap, addedcv[e].item, l, r));
                        },
                        _ => {
                            assert(false);
                        },
                    }
                }
                assert forall|k: int|
                    snap.len() <= k < mid.len() implies #[trigger] from_batch(
                    mid,
                    addedcv,
                    k,
                ) by {
                    assert(pre_raw <= k < cur@.len());
                    assert(from_batch(entries_view(cur@), addedcv, k));
                }
                assert(mid.take(snap.len() as int) == snap);
                lemma_prov_wf_append_batch(prior, token@, j as int, snap, mid, addedcv);
                assert forall|k: int|
                    0 <= k < mid.len() implies colj_member(
                    g,
                    prior,
                    token@,
                    j as int,
                    (#[trigger] mid[k]).item,
                ) by {
                    let it = mid[k].item;
                    assert(col_has(mid, it));
                    if col_has(snap, it) {
                        let a = choose|a: int| 0 <= a < snap.len() && snap[a].item == it;
                    } else {
                        let e = choose|e: int| 0 <= e < addedcv.len() && addedcv[e].item == it;
                        lemma_step_member_colj(g, prior, token@, j as int, snap, it);
                    }
                }
                assert forall|e: int| 0 <= e < addedpv.len() implies {
                    let it = (#[trigger] addedpv[e]).item;
                    &&& it.wf()
                    &&& it.end == j
                    &&& has_prod(g, it.name, it.exp)
                    &&& !col_has(mid, it)
                } by {
                    let it = addedpv[e].item;
                    lemma_pred_item_wf(g, j as int, snap, it);
                    assert(it.dot == 0) by {
                        let x = choose|x: int|
                            0 <= x < snap.len() && predicted_from(
                                g,
                                j as int,
                                (#[trigger] snap[x]).item,
                                it,
                            );
                    }
                    if col_has(mid, it) && !col_has(snap, it) {
                        let ec = choose|ec: int| 0 <= ec < addedcv.len() && addedcv[ec].item == it;
                        assert(comp_step(prior, j as int, snap, it));
                        let bk = choose|bk: int|
                            0 <= bk < snap.len() && comp_step_at(prior, j as int, snap, bk, it);
                        let mu = choose|mu: ItemV|
                            {
                                &&& completed_from(j as int, mu, snap[bk].item, it)
                                &&& if snap[bk].item.start < j {
                                    0 <= snap[bk].item.start && col_has(
                                        prior[snap[bk].item.start],
                                        mu,
                                    )
                                } else {
                                    col_has(snap, mu)
                                }
                            };
                        assert(it.dot == mu.dot + 1);
                        assert(false);
                    }
                }
            }
            let ghost mid_raw = cur@.len();
            insert_new_entries(&mut cur, added_p, j, Ghost(g));
            proof {
                assert forall|e: int|
                    0 <= e < addedpv.len() implies prov_pending(
                    prior,
                    token@,
                    j as int,
                    mid,
                    #[trigger] addedpv[e],
                ) by {
                    assert(addedpv[e].by == InsertedBy::Pred);
                }
                assert(mid.len() == mid_raw);
                assert forall|k: int|
                    mid.len() <= k < entries_view(cur@).len() implies #[trigger] from_batch(
                    entries_view(cur@),
                    addedpv,
                    k,
                ) by {
                    assert(mid_raw <= k < cur@.len());
                }
                assert(entries_view(cur@).take(mid.len() as int) == mid);
                lemma_prov_wf_append_batch(
                    prior,
                    token@,
                    j as int,
                    mid,
                    entries_view(cur@),
                    addedpv,
                );
                assert forall|k: int|
                    0 <= k < entries_view(cur@).len() implies colj_member(
                    g,
                    prior,
                    token@,
                    j as int,
                    (#[trigger] entries_view(cur@)[k]).item,
                ) by {
                    let it = entries_view(cur@)[k].item;
                    assert(col_has(entries_view(cur@), it));
                    if col_has(mid, it) {
                        let a = choose|a: int| 0 <= a < mid.len() && mid[a].item == it;
                    } else {
                        let e = choose|e: int| 0 <= e < addedpv.len() && addedpv[e].item == it;
                        lemma_step_member_colj(g, prior, token@, j as int, snap, it);
                    }
                }
                assert forall|it: ItemV|
                    scan_base(prior, token@, j as int, it) implies col_has(
                    entries_view(cur@),
                    it,
                ) by {
                    assert(col_has(snap, it));
                    assert(col_has(mid, it));
                }
                assert(entries_view(cur@).len() > snap.len()) by {
                    if c_nonempty {
                        assert(mid.len() > snap.len());
                    } else {
                        assert(addedpv.len() > 0);
                        assert(mid.len() == snap.len());
                    }
                }
                lemma_col_len_bound(g, j as int, entries_view(cur@));
            }
        }
        proof {
            assert forall|it: ItemV|
                colj_member(g, prior, token@, j as int, it) implies col_has(
                entries_view(cur@),
                it,
            ) by {
                let n = choose|n: nat| in_colj(g, prior, token@, j as int, n, it);
                lemma_colj_closed_complete(
                    g,
                    prior,
                    token@,
                    j as int,
                    entries_view(cur@),
                    n,
                    it,
                );
            }
            assert forall|it: ItemV|
                col_has(entries_view(cur@), it) implies colj_member(
                g,
                prior,
                token@,
                j as int,
                it,
            ) by {
                let k = choose|k: int|
                    0 <= k < entries_view(cur@).len() && entries_view(cur@)[k].item == it;
            }
        }
        proof {
            assert forall|it: ItemV|
                !(colj_member(g, prior, token@, j as int, it) && unknown_ref(g, it)) by {
                if colj_member(g, prior, token@, j as int, it) && unknown_ref(g, it) {
                    assert(col_has(entries_view(cur@), it));
                    let k = choose|k: int|
                        0 <= k < entries_view(cur@).len() && entries_view(cur@)[k].item == it;
                    assert(!unknown_ref(g, entries_view(cur@)[k].item));
                }
            }
        }
        let ghost curv = entries_view(cur@);
        let ghost old_tokens = self.tokens();
        self.cols.push(cur);
        self.seen.push(token.clone());
        proof {
            assert(self.columns() =~= prior.push(curv));
            assert(self.columns().take(prior.len() as int) =~= prior);
            assert(self.columns().last() == curv);
            assert(self.tokens() =~= old_tokens.push(token@));
            assert forall|c: int|
                0 <= c < self.columns().len() implies prov_wf(
                self.columns(),
                self.tok_of(c),
                c,
                #[trigger] self.columns()[c],
            ) by {
                if c < j {
                    assert(self.columns()[c] == prior[c]);
                    assert(self.tok_of(c) == old(self).tok_of(c)) by {
                        if c >= 1 {
                            assert(self.tokens()[c - 1] == old_tokens[c - 1]);
                        }
                    }
                    assert(prov_wf(prior, old(self).tok_of(c), c, prior[c]));
                    lemma_prov_wf_extend(
                        prior,
                        self.columns(),
                        old(self).tok_of(c),
                        c,
                        prior[c],
                    );
                } else {
                    assert(self.tok_of(c) == token@);
                    assert(self.columns()[c] == curv);
                    lemma_prov_wf_extend(prior, self.columns(), token@, j as int, curv);
                }
            }
        }
        Ok(())
    }
}

} // verus!

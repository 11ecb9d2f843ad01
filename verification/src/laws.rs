//! Invariants of the chart, stated on their own.
//!
//! Most guarantees of this crate live in the contracts of the functions that
//! establish them: acceptance is characterized by the contracts of
//! [`crate::parser::Parser::parse`] and [`crate::prefix::PrefixParser`],
//! reconstruction's yield by [`crate::parser::ParseInfo::reconstruct`], and
//! the parse tree's shape by [`crate::tree::ParseTree::from_proof`]. The
//! lemmas here state what holds across those contracts: the per-column
//! invariants, the exactness of column 0, the validity of provenance tags,
//! that a token is legal exactly when its speculative column is non-empty,
//! that acceptance depends only on the grammar, start nonterminal and input,
//! and that the chart is sound — every item's matched prefix derives the
//! input it covers, so an accepting chart means the start nonterminal
//! derives the whole input.

use vstd::prelude::*;

use crate::column::{col_has, col_wf, EntryV};
use crate::grammar::{
    derives, derives_within, has_prod, lemma_derives_mono, lemma_derives_nonterm,
    lemma_derives_push, lemma_derives_terminal, ProdV,
};
use crate::item::{InsertedBy, ItemV};
use crate::parser::{chart_consistent, column_exact};
use crate::table::{
    accepting_col, col0_member, colj_member, comp_mu_of, completed_from, completed_matches,
    in_col0, in_colj, is_final_item, is_seed, item_scannable, predicted_from, prov_entry_wf,
    scan_base, scan_pred_of, scanned_from, spec_can_scan, Table,
};
use crate::token::TokenV;

verus! {

/// Every item of a well-formed chart's column `c` has its range end at `c`,
/// a range that starts no earlier than 0, and a dotted form of a grammar
/// production.
pub proof fn lemma_items_end_at_column(t: Table, c: int, it: ItemV)
    requires
        t.wf(),
        0 <= c < t.columns().len(),
        col_has(t.columns()[c], it),
    ensures
        it.end == c,
        0 <= it.start <= c,
        it.before() + it.after() =~= it.exp,
        has_prod(t.gram(), it.name, it.exp),
{
    let k = choose|k: int| 0 <= k < t.columns()[c].len() && t.columns()[c][k].item == it;
    assert(col_wf(t.gram(), c, t.columns()[c]));
    assert(t.columns()[c][k].item.wf());
}

/// Everything in the predict-closure of the seed set is a fresh item of
/// column 0: the dot far left, the range `[0, 0]`, the expansion from the
/// grammar.
pub proof fn lemma_col0_member_shape(g: Seq<ProdV>, s: Seq<char>, n: nat, it: ItemV)
    requires
        in_col0(g, s, n, it),
    ensures
        it.dot == 0,
        it.start == 0,
        it.end == 0,
        has_prod(g, it.name, it.exp),
    decreases n,
{
    if n == 0 {
    } else if in_col0(g, s, (n - 1) as nat, it) {
        lemma_col0_member_shape(g, s, (n - 1) as nat, it);
    } else {
    }
}

/// Column 0 of a fresh chart is exactly the predict-closure of the seed set
/// for the start nonterminal: it holds every seed, everything it holds is
/// reachable from the seeds by predict steps alone, and no item's range
/// starts below 0.
pub proof fn lemma_column_zero_exact(t: Table, it: ItemV)
    requires
        t.wf(),
        forall|x: ItemV| col_has(t.columns()[0], x) <==> col0_member(t.gram(), t.init_name(), x),
    ensures
        is_seed(t.gram(), t.init_name(), it) ==> col_has(t.columns()[0], it),
        col_has(t.columns()[0], it) ==> col0_member(t.gram(), t.init_name(), it),
        col_has(t.columns()[0], it) ==> it.start == 0 && it.end == 0 && it.dot == 0,
{
    if is_seed(t.gram(), t.init_name(), it) {
        assert(in_col0(t.gram(), t.init_name(), 0, it));
    }
    if col_has(t.columns()[0], it) {
        let n = choose|n: nat| in_col0(t.gram(), t.init_name(), n, it);
        lemma_col0_member_shape(t.gram(), t.init_name(), n, it);
    }
}

/// An item of a well-formed chart whose matched prefix and unmatched suffix
/// are both empty is a dotted form of a production with an empty expansion.
pub proof fn lemma_empty_item_is_epsilon(t: Table, c: int, it: ItemV)
    requires
        t.wf(),
        0 <= c < t.columns().len(),
        col_has(t.columns()[c], it),
        it.before() == Seq::<crate::token::TokenV>::empty(),
        it.after() == Seq::<crate::token::TokenV>::empty(),
    ensures
        it.exp == Seq::<crate::token::TokenV>::empty(),
        has_prod(t.gram(), it.name, Seq::<crate::token::TokenV>::empty()),
{
    let k = choose|k: int| 0 <= k < t.columns()[c].len() && t.columns()[c][k].item == it;
    assert(col_wf(t.gram(), c, t.columns()[c]));
    assert(t.columns()[c][k].item.wf());
    assert(it.exp =~= it.before() + it.after());
}

/// An item is reachable for column `j` only when something in column
/// `j - 1` can be advanced over the token: every stage bottoms out in the
/// scan base.
proof fn lemma_stage_needs_scan(
    g: Seq<ProdV>,
    prior: Seq<Seq<EntryV>>,
    tok: Seq<char>,
    j: int,
    n: nat,
    it: ItemV,
)
    requires
        in_colj(g, prior, tok, j, n, it),
    ensures
        spec_can_scan(prior[j - 1], tok),
    decreases n,
{
    if n == 0 {
        let k = choose|k: int|
            0 <= k < prior[j - 1].len() && scanned_from(tok, j, (#[trigger] prior[j - 1][k]).item, it);
        assert(item_scannable(prior[j - 1][k].item, tok));
    } else if in_colj(g, prior, tok, j, (n - 1) as nat, it) {
        lemma_stage_needs_scan(g, prior, tok, j, (n - 1) as nat, it);
    } else if exists|x: ItemV|
        in_colj(g, prior, tok, j, (n - 1) as nat, x) && crate::table::predicted_from(g, j, x, it) {
        let x = choose|x: ItemV|
            in_colj(g, prior, tok, j, (n - 1) as nat, x) && crate::table::predicted_from(
                g,
                j,
                x,
                it,
            );
        lemma_stage_needs_scan(g, prior, tok, j, (n - 1) as nat, x);
    } else {
        let (b, mu) = choose|b: ItemV, mu: ItemV|
            {
                &&& in_colj(g, prior, tok, j, (n - 1) as nat, b)
                &&& crate::table::completed_from(j, mu, b, it)
                &&& if b.start < j {
                    0 <= b.start && col_has(prior[b.start], mu)
                } else {
                    in_colj(g, prior, tok, j, (n - 1) as nat, mu)
                }
            };
        lemma_stage_needs_scan(g, prior, tok, j, (n - 1) as nat, b);
    }
}

/// A token is legal exactly when the speculative next column would be
/// non-empty: something of the current column expects the terminal next if
/// and only if some item is reachable for the next column — the closure of
/// the scan adds nothing when the scan itself is empty, and keeps the
/// scanned items when it is not.
pub proof fn lemma_legal_iff_column_nonempty(
    g: Seq<ProdV>,
    prior: Seq<Seq<EntryV>>,
    tok: Seq<char>,
    j: int,
)
    requires
        j >= 1,
        j - 1 < prior.len(),
        col_wf(g, j - 1, prior[j - 1]),
    ensures
        spec_can_scan(prior[j - 1], tok) <==> exists|it: ItemV| colj_member(g, prior, tok, j, it),
{
    if spec_can_scan(prior[j - 1], tok) {
        let k = choose|k: int|
            0 <= k < prior[j - 1].len() && item_scannable((#[trigger] prior[j - 1][k]).item, tok);
        let prev = prior[j - 1][k].item;
        assert(prev.wf() && prev.end == j - 1);
        let witness = prev.advanced(j);
        assert(scanned_from(tok, j, prev, witness));
        assert(scan_base(prior, tok, j, witness));
        assert(in_colj(g, prior, tok, j, 0, witness));
        assert(colj_member(g, prior, tok, j, witness));
    }
    if exists|it: ItemV| colj_member(g, prior, tok, j, it) {
        let it = choose|it: ItemV| colj_member(g, prior, tok, j, it);
        let n = choose|n: nat| in_colj(g, prior, tok, j, n, it);
        lemma_stage_needs_scan(g, prior, tok, j, n, it);
    }
}


/// Stage membership for column `j` depends only on which items the earlier
/// columns hold, never on how they are arranged.
proof fn lemma_stage_depends_on_membership(
    g: Seq<ProdV>,
    prior_a: Seq<Seq<EntryV>>,
    prior_b: Seq<Seq<EntryV>>,
    tok: Seq<char>,
    j: int,
    n: nat,
    it: ItemV,
)
    requires
        j >= 1,
        forall|c: int, x: ItemV|
            0 <= c < j ==> (#[trigger] col_has(prior_a[c], x) <==> col_has(prior_b[c], x)),
        in_colj(g, prior_a, tok, j, n, it),
    ensures
        in_colj(g, prior_b, tok, j, n, it),
    decreases n,
{
    if n == 0 {
        let k = choose|k: int|
            0 <= k < prior_a[j - 1].len() && scanned_from(
                tok,
                j,
                (#[trigger] prior_a[j - 1][k]).item,
                it,
            );
        let x = prior_a[j - 1][k].item;
        assert(col_has(prior_a[j - 1], x));
        assert(col_has(prior_b[j - 1], x));
        let kb = choose|kb: int|
            0 <= kb < prior_b[j - 1].len() && (#[trigger] prior_b[j - 1][kb]).item == x;
        assert(scanned_from(tok, j, prior_b[j - 1][kb].item, it));
        assert(scan_base(prior_b, tok, j, it));
    } else if in_colj(g, prior_a, tok, j, (n - 1) as nat, it) {
        lemma_stage_depends_on_membership(g, prior_a, prior_b, tok, j, (n - 1) as nat, it);
    } else if exists|x: ItemV|
        in_colj(g, prior_a, tok, j, (n - 1) as nat, x) && predicted_from(g, j, x, it) {
        let x = choose|x: ItemV|
            in_colj(g, prior_a, tok, j, (n - 1) as nat, x) && predicted_from(g, j, x, it);
        lemma_stage_depends_on_membership(g, prior_a, prior_b, tok, j, (n - 1) as nat, x);
    } else {
        let (b, mu) = choose|b: ItemV, mu: ItemV|
            {
                &&& in_colj(g, prior_a, tok, j, (n - 1) as nat, b)
                &&& completed_from(j, mu, b, it)
                &&& if b.start < j {
                    0 <= b.start && col_has(prior_a[b.start], mu)
                } else {
                    in_colj(g, prior_a, tok, j, (n - 1) as nat, mu)
                }
            };
        lemma_stage_depends_on_membership(g, prior_a, prior_b, tok, j, (n - 1) as nat, b);
        if b.start < j {
            assert(col_has(prior_b[b.start], mu));
        } else {
            lemma_stage_depends_on_membership(g, prior_a, prior_b, tok, j, (n - 1) as nat, mu);
        }
        assert(in_colj(g, prior_b, tok, j, n, it));
    }
}

/// Two charts built consistently for the same grammar, start nonterminal and
/// input hold the same items in every column.
pub proof fn lemma_consistent_charts_agree(
    g: Seq<ProdV>,
    s: Seq<char>,
    cols_a: Seq<Seq<EntryV>>,
    cols_b: Seq<Seq<EntryV>>,
    input: Seq<Seq<char>>,
    c: int,
    it: ItemV,
)
    requires
        chart_consistent(g, s, cols_a, input),
        chart_consistent(g, s, cols_b, input),
        0 <= c <= input.len(),
    ensures
        col_has(cols_a[c], it) <==> col_has(cols_b[c], it),
    decreases c,
{
    if c == 0 {
        assert(col_has(cols_a[0], it) <==> col0_member(g, s, it));
        assert(col_has(cols_b[0], it) <==> col0_member(g, s, it));
    } else {
        assert(column_exact(g, cols_a, input[c - 1], c));
        assert(column_exact(g, cols_b, input[c - 1], c));
        assert forall|cc: int, x: ItemV|
            0 <= cc < c implies (#[trigger] col_has(cols_a.take(c)[cc], x) <==> col_has(
            cols_b.take(c)[cc],
            x,
        )) by {
            lemma_consistent_charts_agree(g, s, cols_a, cols_b, input, cc, x);
            assert(cols_a.take(c)[cc] == cols_a[cc]);
            assert(cols_b.take(c)[cc] == cols_b[cc]);
        }
        if col_has(cols_a[c], it) {
            assert(colj_member(g, cols_a.take(c), input[c - 1], c, it));
            let n = choose|n: nat| #[trigger] in_colj(g, cols_a.take(c), input[c - 1], c, n, it);
            lemma_stage_depends_on_membership(
                g,
                cols_a.take(c),
                cols_b.take(c),
                input[c - 1],
                c,
                n,
                it,
            );
            assert(colj_member(g, cols_b.take(c), input[c - 1], c, it));
            assert(col_has(cols_b[c], it));
        }
        if col_has(cols_b[c], it) {
            assert(colj_member(g, cols_b.take(c), input[c - 1], c, it));
            let n = choose|n: nat| #[trigger] in_colj(g, cols_b.take(c), input[c - 1], c, n, it);
            lemma_stage_depends_on_membership(
                g,
                cols_b.take(c),
                cols_a.take(c),
                input[c - 1],
                c,
                n,
                it,
            );
            assert(colj_member(g, cols_a.take(c), input[c - 1], c, it));
            assert(col_has(cols_a[c], it));
        }
    }
}

/// Whether a chart built for an input accepts does not depend on which
/// consistent chart was built: acceptance is a function of the grammar, the
/// start nonterminal and the input alone.
pub proof fn lemma_acceptance_deterministic(
    g: Seq<ProdV>,
    s: Seq<char>,
    cols_a: Seq<Seq<EntryV>>,
    cols_b: Seq<Seq<EntryV>>,
    input: Seq<Seq<char>>,
)
    requires
        chart_consistent(g, s, cols_a, input),
        chart_consistent(g, s, cols_b, input),
    ensures
        accepting_col(cols_a.last(), s) <==> accepting_col(cols_b.last(), s),
{
    let n = input.len() as int;
    if accepting_col(cols_a.last(), s) {
        let k = choose|k: int|
            0 <= k < cols_a[n].len() && is_final_item((#[trigger] cols_a[n][k]).item, s);
        let it = cols_a[n][k].item;
        lemma_consistent_charts_agree(g, s, cols_a, cols_b, input, n, it);
        let kb = choose|kb: int| 0 <= kb < cols_b[n].len() && cols_b[n][kb].item == it;
        assert(is_final_item(cols_b[n][kb].item, s));
    }
    if accepting_col(cols_b.last(), s) {
        let k = choose|k: int|
            0 <= k < cols_b[n].len() && is_final_item((#[trigger] cols_b[n][k]).item, s);
        let it = cols_b[n][k].item;
        lemma_consistent_charts_agree(g, s, cols_a, cols_b, input, n, it);
        let ka = choose|ka: int| 0 <= ka < cols_a[n].len() && cols_a[n][ka].item == it;
        assert(is_final_item(cols_a[n][ka].item, s));
    }
}


/// What each provenance tag promises of its entry, stated over the matched
/// prefix and the recorded ranges: a prediction is a fresh item of its own
/// column; a scan's range is the predecessor's, the symbol just matched is
/// this column's token, and the predecessor is in the previous column; a
/// completion's ranges chain from the item's origin through the completed
/// child's origin to this column, the symbol just matched is a nonterminal,
/// the completed child is at an earlier index of this very column, and the
/// predecessor is at the child's origin column.
pub proof fn lemma_provenance_valid(t: Table, c: int, k: int)
    requires
        t.wf(),
        0 <= c < t.columns().len(),
        0 <= k < t.columns()[c].len(),
    ensures
        ({
            let e = t.columns()[c][k];
            match e.by {
                InsertedBy::Pred => {
                    &&& e.item.before() == Seq::<TokenV>::empty()
                    &&& e.item.start == c
                    &&& e.item.end == c
                },
                InsertedBy::Scan(r) => {
                    &&& c >= 1
                    &&& r.start == e.item.start
                    &&& r.end == c - 1
                    &&& e.item.before().last() == TokenV::Term(t.tokens()[c - 1])
                    &&& col_has(t.columns()[c - 1], scan_pred_of(e.item, c))
                },
                InsertedBy::Comp(l, r) => {
                    &&& l.start == e.item.start
                    &&& l.end == r.start
                    &&& r.end == c
                    &&& e.item.before().last() is NonTerm
                    &&& exists|kb: int|
                        0 <= kb < k && completed_matches(
                            (#[trigger] t.columns()[c][kb]).item,
                            e.item.before().last()->NonTerm_0,
                            r.start as int,
                            c,
                        )
                    &&& col_has(t.columns()[l.end as int], comp_mu_of(e.item, l))
                },
            }
        }),
{
    let e = t.columns()[c][k];
    assert(col_wf(t.gram(), c, t.columns()[c]));
    assert(e.item.wf() && e.item.end == c);
    assert(prov_entry_wf(t.columns(), t.tok_of(c), c, t.columns()[c], k));
    match e.by {
        InsertedBy::Pred => {
            assert(e.item.before() =~= Seq::<TokenV>::empty());
        },
        InsertedBy::Scan(r) => {
            assert(e.item.before().last() == e.item.exp[e.item.dot - 1]);
            assert(t.tok_of(c) == t.tokens()[c - 1]);
        },
        InsertedBy::Comp(l, r) => {
            assert(e.item.before().last() == e.item.exp[e.item.dot - 1]);
            if l.end < c {
            } else {
                let km = choose|km: int|
                    0 <= km < k && (#[trigger] t.columns()[c][km]).item == comp_mu_of(e.item, l);
                assert(col_has(t.columns()[l.end as int], comp_mu_of(e.item, l)));
            }
        },
    }
}


/// Every chart item's matched prefix derives exactly the stretch of input
/// between its origin columns: the chart is sound. By induction over columns
/// and closure stages.
pub proof fn lemma_chart_item_derives(
    g: Seq<ProdV>,
    s: Seq<char>,
    cols: Seq<Seq<EntryV>>,
    input: Seq<Seq<char>>,
    c: int,
    it: ItemV,
)
    requires
        chart_consistent(g, s, cols, input),
        forall|cc: int| 0 <= cc < cols.len() ==> col_wf(g, cc, #[trigger] cols[cc]),
        0 <= c <= input.len(),
        col_has(cols[c], it),
    ensures
        derives(g, it.before(), input.subrange(it.start, c)),
    decreases c, 1nat, 0nat,
{
    if c == 0 {
        assert(col0_member(g, s, it));
        let n = choose|n: nat| in_col0(g, s, n, it);
        lemma_col0_member_shape(g, s, n, it);
        assert(it.before() =~= Seq::<TokenV>::empty());
        assert(input.subrange(0, 0) =~= Seq::<Seq<char>>::empty());
        assert(derives_within(g, it.before(), input.subrange(it.start, c), 0));
    } else {
        assert(column_exact(g, cols, input[c - 1], c));
        assert(colj_member(g, cols.take(c), input[c - 1], c, it));
        let n = choose|n: nat| #[trigger] in_colj(g, cols.take(c), input[c - 1], c, n, it);
        lemma_stage_item_derives(g, s, cols, input, c, n, it);
    }
}

/// A stage member of column `c` has a matched prefix deriving its covered
/// input, assuming the chart is consistent up to `c`.
proof fn lemma_stage_item_derives(
    g: Seq<ProdV>,
    s: Seq<char>,
    cols: Seq<Seq<EntryV>>,
    input: Seq<Seq<char>>,
    c: int,
    n: nat,
    it: ItemV,
)
    requires
        chart_consistent(g, s, cols, input),
        forall|cc: int| 0 <= cc < cols.len() ==> col_wf(g, cc, #[trigger] cols[cc]),
        1 <= c <= input.len(),
        in_colj(g, cols.take(c), input[c - 1], c, n, it),
    ensures
        derives(g, it.before(), input.subrange(it.start, c)),
    decreases c, 0nat, n,
{
    let prior = cols.take(c);
    let tok = input[c - 1];
    assert(column_exact(g, cols, tok, c));
    assert(colj_member(g, prior, tok, c, it));
    assert(col_has(cols[c], it));
    let wk = choose|wk: int| 0 <= wk < cols[c].len() && cols[c][wk].item == it;
    assert(cols[c][wk].item.wf());
    assert(0 <= it.start <= it.end == c);
    if n == 0 {
        let k = choose|k: int|
            0 <= k < prior[c - 1].len() && scanned_from(tok, c, (#[trigger] prior[c - 1][k]).item, it);
        let prev = prior[c - 1][k].item;
        assert(prior[c - 1] == cols[c - 1]);
        assert(col_has(cols[c - 1], prev));
        assert(cols[c - 1][k].item.wf());
        lemma_chart_item_derives(g, s, cols, input, c - 1, prev);
        let d = choose|d: nat|
            #[trigger] derives_within(g, prev.before(), input.subrange(prev.start, c - 1), d);
        assert(it.before() =~= prev.before().push(prev.next_sym()));
        let one_tok = seq![tok];
        assert(derives_within(g, seq![prev.next_sym()], one_tok, d)) by {
            lemma_derives_terminal(g, tok, d);
        }
        lemma_derives_push(
            g,
            prev.before(),
            input.subrange(prev.start, c - 1),
            prev.next_sym(),
            one_tok,
            d,
        );
        assert(input.subrange(prev.start, c - 1) + one_tok =~= input.subrange(it.start, c));
        assert(derives_within(g, it.before(), input.subrange(it.start, c), d));
    } else if in_colj(g, prior, tok, c, (n - 1) as nat, it) {
        lemma_stage_item_derives(g, s, cols, input, c, (n - 1) as nat, it);
    } else if exists|x: ItemV|
        in_colj(g, prior, tok, c, (n - 1) as nat, x) && predicted_from(g, c, x, it) {
        assert(it.dot == 0 && it.start == c) by {
            let x = choose|x: ItemV|
                in_colj(g, prior, tok, c, (n - 1) as nat, x) && predicted_from(g, c, x, it);
        }
        assert(it.before() =~= Seq::<TokenV>::empty());
        assert(input.subrange(c, c) =~= Seq::<Seq<char>>::empty());
        assert(derives_within(g, it.before(), input.subrange(it.start, c), 0));
    } else {
        let (b, mu) = choose|b: ItemV, mu: ItemV|
            {
                &&& in_colj(g, prior, tok, c, (n - 1) as nat, b)
                &&& completed_from(c, mu, b, it)
                &&& if b.start < c {
                    0 <= b.start && col_has(prior[b.start], mu)
                } else {
                    in_colj(g, prior, tok, c, (n - 1) as nat, mu)
                }
            };
        lemma_stage_item_derives(g, s, cols, input, c, (n - 1) as nat, b);
        let db = choose|db: nat|
            #[trigger] derives_within(g, b.before(), input.subrange(b.start, c), db);
        assert(colj_member(g, prior, tok, c, b));
        assert(col_has(cols[c], b));
        let bk = choose|bk: int| 0 <= bk < cols[c].len() && cols[c][bk].item == b;
        assert(cols[c][bk].item.wf());
        assert(has_prod(g, b.name, b.exp));
        assert(0 <= b.start <= c);
        assert(b.before() =~= b.exp);
        let out_b = input.subrange(b.start, c);
        let sym_b = TokenV::NonTerm(b.name);
        assert(derives_within(g, seq![sym_b], out_b, db + 1)) by {
            assert(has_prod(g, b.name, b.before()));
            lemma_derives_nonterm(g, b.name, b.before(), out_b, db);
        }
        let dmu: nat;
        if b.start < c {
            assert(prior[b.start] == cols[b.start]);
            lemma_chart_item_derives(g, s, cols, input, b.start, mu);
            dmu = choose|dm: nat|
                #[trigger] derives_within(g, mu.before(), input.subrange(mu.start, b.start), dm);
        } else {
            assert(b.start == c);
            lemma_stage_item_derives(g, s, cols, input, c, (n - 1) as nat, mu);
            dmu = choose|dm: nat|
                #[trigger] derives_within(g, mu.before(), input.subrange(mu.start, b.start), dm);
        }
        let dd = if dmu >= db + 1 {
            dmu
        } else {
            (db + 1) as nat
        };
        lemma_derives_mono(g, mu.before(), input.subrange(mu.start, b.start), dmu, dd);
        lemma_derives_mono(g, seq![sym_b], out_b, (db + 1) as nat, dd);
        lemma_derives_push(
            g,
            mu.before(),
            input.subrange(mu.start, b.start),
            sym_b,
            out_b,
            dd,
        );
        assert(it.before() =~= mu.before().push(sym_b));
        assert(input.subrange(mu.start, b.start) + out_b =~= input.subrange(it.start, c));
        assert(derives_within(g, it.before(), input.subrange(it.start, c), dd));
    }
}

/// Language soundness of acceptance: when a consistent chart accepts, the
/// start nonterminal derives the whole input.
pub proof fn lemma_acceptance_derives(
    g: Seq<ProdV>,
    s: Seq<char>,
    cols: Seq<Seq<EntryV>>,
    input: Seq<Seq<char>>,
)
    requires
        chart_consistent(g, s, cols, input),
        forall|cc: int| 0 <= cc < cols.len() ==> col_wf(g, cc, #[trigger] cols[cc]),
        accepting_col(cols.last(), s),
    ensures
        derives(g, seq![TokenV::NonTerm(s)], input),
{
    let n = input.len() as int;
    let k = choose|k: int|
        0 <= k < cols[n].len() && is_final_item((#[trigger] cols[n][k]).item, s);
    let it = cols[n][k].item;
    assert(col_has(cols[n], it));
    assert(cols[n][k].item.wf());
    lemma_chart_item_derives(g, s, cols, input, n, it);
    let d = choose|d: nat|
        #[trigger] derives_within(g, it.before(), input.subrange(it.start, n), d);
    assert(it.before() =~= it.exp);
    assert(input.subrange(0, n) =~= input);
    assert(derives_within(g, seq![TokenV::NonTerm(s)], input, d + 1)) by {
        assert(has_prod(g, s, it.before()));
        assert(derives_within(g, it.before(), input.subrange(it.start, n), d));
        assert(input.subrange(it.start, n) == input);
        lemma_derives_nonterm(g, s, it.before(), input, d);
    }
}

} // verus!

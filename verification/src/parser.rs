//! The batch parser: drives the chart over a finite input and decides
//! acceptance.

use vstd::prelude::*;

use crate::column::{col_has, EntryV};
use crate::errors::Error;
use crate::grammar::{grammar_closed, has_key, Grammar, ProdV};
use crate::column::col_wf;
use crate::item::{clone_tokens, InsertedBy, Item, ItemV};
use crate::recon::{supported, FullProof, ProofTree};
use crate::table::{
    accepting_col, col0_member, colj_member, comp_mu_of, completed_matches, is_final_item,
    prov_entry_wf, prov_wf, scan_pred_of, Table,
};
use crate::token::{strs_view, Token, TokenV};

verus! {



/// Column `j >= 1` of `cols` holds exactly the items reachable from the scan
/// of column `j - 1` over `tok`.
pub open spec fn column_exact(g: Seq<ProdV>, cols: Seq<Seq<EntryV>>, tok: Seq<char>, j: int) -> bool {
    forall|it: ItemV| col_has(cols[j], it) <==> colj_member(g, cols.take(j), tok, j, it)
}

/// The whole chart is what the construction rules dictate for `input`:
/// column 0 is the predict-closure of the seeds, and each later column is
/// exactly the closure of the scan of its predecessor.
pub open spec fn chart_consistent(
    g: Seq<ProdV>,
    s: Seq<char>,
    cols: Seq<Seq<EntryV>>,
    input: Seq<Seq<char>>,
) -> bool {
    &&& cols.len() == input.len() + 1
    &&& forall|it: ItemV| col_has(cols[0], it) <==> col0_member(g, s, it)
    &&& forall|j: int| 1 <= j <= input.len() ==> #[trigger] column_exact(g, cols, input[j - 1], j)
}

/// A batch parser: an input left to consume and the chart built so far.
pub struct Parser {
    input: Vec<String>,
    table: Table,
}

/// A successful parse: the accepting chart, frozen, with the input it
/// recognized. What reconstruction needs.
pub struct ParseInfo {
    pub(crate) table: Table,
}

impl ParseInfo {
    /// The chart columns.
    pub closed spec fn columns(&self) -> Seq<Seq<EntryV>> {
        self.table.columns()
    }

    /// The grammar the chart was built against.
    pub closed spec fn gram(&self) -> Seq<ProdV> {
        self.table.gram()
    }

    /// The start nonterminal.
    pub closed spec fn init_name(&self) -> Seq<char> {
        self.table.init_name()
    }

    /// The recognized input.
    pub closed spec fn input_view(&self) -> Seq<Seq<char>> {
        self.table.tokens()
    }

    /// A well-formed accepting parse: a sane chart, built exactly as the
    /// rules dictate for the input, whose final column witnesses acceptance.
    pub closed spec fn wf(&self) -> bool {
        &&& self.table.wf()
        &&& chart_consistent(self.gram(), self.init_name(), self.columns(), self.input_view())
        &&& accepting_col(self.columns().last(), self.init_name())
    }
}

impl Parser {
    /// The chart columns built so far.
    pub closed spec fn columns(&self) -> Seq<Seq<EntryV>> {
        self.table.columns()
    }

    /// The grammar.
    pub closed spec fn gram(&self) -> Seq<ProdV> {
        self.table.gram()
    }

    /// The start nonterminal.
    pub closed spec fn init_name(&self) -> Seq<char> {
        self.table.init_name()
    }

    /// The input to consume.
    pub closed spec fn input_view(&self) -> Seq<Seq<char>> {
        strs_view(self.input@)
    }

    /// A fresh parser: chart started, whole input ahead.
    pub closed spec fn wf(&self) -> bool {
        &&& self.table.wf()
        &&& self.table.columns().len() == 1
        &&& forall|it: ItemV|
            col_has(self.table.columns()[0], it) <==> col0_member(
                self.gram(),
                self.init_name(),
                it,
            )
    }

    /// Builds a parser over `input` for `grammar` and start nonterminal
    /// `initial`. Fails exactly as starting the chart does.
    pub fn new(input: Vec<String>, grammar: Grammar, initial: &str) -> (r: Result<Parser, Error>)
        ensures
            match r {
                Ok(p) => {
                    &&& p.wf()
                    &&& p.gram() == grammar@
                    &&& p.init_name() == initial@
                    &&& p.input_view() == strs_view(input@)
                    &&& p.columns().len() == 1
                    &&& forall|it: ItemV|
                        col_has(p.columns()[0], it) <==> col0_member(grammar@, initial@, it)
                },
                Err(e) => {
                    ||| e == Error::UnknownInitial && !has_key(grammar@, initial@)
                    ||| e == Error::UnknownNonterminal && !grammar_closed(grammar@)
                },
            },
            !has_key(grammar@, initial@) ==> (r matches Err(e) && e == Error::UnknownInitial),
            has_key(grammar@, initial@) && grammar_closed(grammar@) ==> r is Ok,
    {
        let table = Table::new(grammar, initial)?;
        Ok(Parser { input, table })
    }

    /// Consumes the input, building one column per token, and decides
    /// acceptance: the input is accepted exactly when the final column holds
    /// a completed production of the start nonterminal spanning the whole
    /// input. On acceptance the chart is handed over for reconstruction; a
    /// non-accepting chart is the ordinary `ParseFailed` outcome.
    #[verifier::loop_isolation(false)]
    pub fn parse(self) -> (r: Result<ParseInfo, Error>)
        requires
            self.wf(),
        ensures
            match r {
                Ok(info) => {
                    &&& info.wf()
                    &&& info.gram() == self.gram()
                    &&& info.init_name() == self.init_name()
                    &&& info.input_view() == self.input_view()
                    &&& forall|cols: Seq<Seq<EntryV>>|
                        chart_consistent(self.gram(), self.init_name(), cols, self.input_view())
                            ==> accepting_col(cols.last(), self.init_name())
                },
                Err(e) => {
                    ||| e == Error::ParseFailed && (forall|cols: Seq<Seq<EntryV>>|
                        chart_consistent(self.gram(), self.init_name(), cols, self.input_view())
                            ==> !accepting_col(cols.last(), self.init_name()))
                    ||| e == Error::UnknownNonterminal && !grammar_closed(self.gram())
                },
            },
            grammar_closed(self.gram()) ==> (r is Err ==> r->Err_0 == Error::ParseFailed),
    {
        let Parser { input, mut table } = self;
        let ghost g = table.gram();
        let ghost s = table.init_name();
        let ghost inv = strs_view(input@);
        let mut i: usize = 0;
        proof {
            assert(g == self.gram() && s == self.init_name() && inv == self.input_view());
            assert(inv.take(0).len() == 0);
            assert forall|it: ItemV| col_has(table.columns()[0], it) <==> col0_member(
                g,
                s,
                it,
            ) by {
                assert(col_has(self.table.columns()[0], it) <==> col0_member(
                    self.gram(),
                    self.init_name(),
                    it,
                ));
            }
        }
        proof {
            assert(table.tokens() =~= inv.take(0));
        }
        while i < input.len()
            invariant
                i <= input.len(),
                table.wf(),
                table.gram() == g,
                table.init_name() == s,
                table.columns().len() == i + 1,
                table.tokens() == inv.take(i as int),
                chart_consistent(g, s, table.columns(), inv.take(i as int)),
            decreases input.len() - i,
        {
            let ghost pre_cols = table.columns();
            match table.next(&input[i]) {
                Ok(()) => {},
                Err(e) => {
                    return Err(e);
                },
            }
            proof {
                assert(table.columns().take(pre_cols.len() as int) == pre_cols);
                assert(inv.take(i + 1 as int)[i as int] == inv[i as int]);
                assert(table.columns().len() == i + 2);
                assert forall|j: int|
                    1 <= j <= i + 1 implies #[trigger] column_exact(
                    g,
                    table.columns(),
                    inv.take(i + 1 as int)[j - 1],
                    j,
                ) by {
                    assert(inv.take(i + 1 as int)[j - 1] == inv[j - 1]);
                    if j <= i {
                        assert(column_exact(g, pre_cols, inv.take(i as int)[j - 1], j));
                        assert(inv.take(i as int)[j - 1] == inv[j - 1]);
                        assert(table.columns()[j] == pre_cols[j]);
                        assert(table.columns().take(j) =~= pre_cols.take(j));
                    } else {
                        assert(table.columns().take(j) =~= pre_cols);
                        assert(table.columns()[j] == table.columns().last());
                    }
                }
                assert(table.columns()[0] == pre_cols[0]);
                assert(chart_consistent(g, s, table.columns(), inv.take(i + 1 as int)));
                assert(table.tokens() =~= inv.take(i + 1 as int));
            }
            i += 1;
        }
        proof {
            assert(inv.take(i as int) =~= inv);
        }
        let ghost ours = table.columns();
        if table.accepted() {
            proof {
                assert forall|cols: Seq<Seq<EntryV>>|
                    chart_consistent(g, s, cols, inv) implies accepting_col(cols.last(), s) by {
                    crate::laws::lemma_acceptance_deterministic(g, s, cols, ours, inv);
                }
            }
            let info = ParseInfo { table };
            proof {
                assert(info.gram() == g);
                assert(info.init_name() == s);
                assert(info.input_view() == inv);
                assert(info.columns() == info.table.columns());
                assert(chart_consistent(g, s, info.table.columns(), inv));
                assert(chart_consistent(
                    info.gram(),
                    info.init_name(),
                    info.columns(),
                    info.input_view(),
                ));
                assert(accepting_col(info.columns().last(), info.init_name()));
                assert(info.wf());
            }
            Ok(info)
        } else {
            proof {
                assert(chart_consistent(g, s, ours, inv) && !accepting_col(ours.last(), s));
                assert forall|cols: Seq<Seq<EntryV>>|
                    chart_consistent(g, s, cols, inv) implies !accepting_col(cols.last(), s) by {
                    crate::laws::lemma_acceptance_deterministic(g, s, cols, ours, inv);
                }
            }
            Err(Error::ParseFailed)
        }
    }
}


impl ParseInfo {
    /// The recognized input tokens.
    pub fn input(&self) -> (r: &Vec<String>)
        ensures
            strs_view(r@) == self.input_view(),
    {
        self.table.tokens_vec()
    }

    /// The start nonterminal.
    pub fn initial(&self) -> (r: &String)
        ensures
            r@ == self.init_name(),
    {
        self.table.initial()
    }

    /// The frozen chart.
    pub fn table(&self) -> (r: &Table)
        ensures
            r.columns() == self.columns(),
            r.gram() == self.gram(),
            r.init_name() == self.init_name(),
    {
        &self.table
    }

    /// Backward traversal on provenance: the proof of the entry at index `k`
    /// of the column at `c`. The chart's provenance invariant guarantees
    /// every link the traversal follows: a scan's predecessor is in the
    /// previous column, a completion's child and predecessor sit at earlier
    /// indexes or in earlier columns — which bounds the recursion — and the
    /// recovered proof covers the input and is supported by the chart.
    fn reconstruct_entry(&self, c: usize, k: usize) -> (r: ProofTree)
        requires
            self.table.wf(),
            c < self.columns().len(),
            k < self.columns()[c as int].len(),
        ensures
            r.root() == self.columns()[c as int][k as int].item,
            r.covers(self.input_view()),
            supported(r, self.columns()),
        decreases c, k,
    {
        let ghost cols = self.columns();
        let ghost input = self.input_view();
        let e = self.table.entry_at(c, k);
        let ghost it = e.item@;
        proof {
            assert(col_wf(self.gram(), c as int, cols[c as int]));
            assert(it.wf() && it.end == c);
            assert(prov_wf(cols, self.table.tok_of(c as int), c as int, cols[c as int]));
            assert(prov_entry_wf(cols, self.table.tok_of(c as int), c as int, cols[c as int], k as int));
            assert(it.end <= input.len());
        }
        match e.by {
            InsertedBy::Pred => {
                let p = ProofTree::Pred(e.item.duplicate());
                proof {
                    assert(it.start == c && it.end == c);
                    assert(p.yield_of() =~= input.subrange(it.start, it.end));
                    assert(col_has(cols[it.end], it));
                }
                p
            },
            InsertedBy::Scan(rng) => {
                proof {
                    assert(c >= 1);
                    assert(it.exp[it.dot - 1] == TokenV::Term(self.table.tok_of(c as int)));
                    assert(self.table.tok_of(c as int) == input[c - 1]);
                }
                let target = Item {
                    name: e.item.name.clone(),
                    exp: clone_tokens(&e.item.exp),
                    dot: e.item.dot - 1,
                    start: rng.start,
                    end: rng.end,
                };
                proof {
                    assert(target@ =~= scan_pred_of(it, c as int));
                    assert(col_has(cols[c - 1], target@));
                }
                let km = match self.table.find_in_col(c - 1, &target) {
                    Some(km) => km,
                    None => {
                        proof {
                            assert(false);
                        }
                        unreached()
                    },
                };
                let child = self.reconstruct_entry(c - 1, km);
                let p = ProofTree::Scan(e.item.duplicate(), Box::new(child));
                proof {
                    assert(p.root() == it);
                    assert(child.root().start == it.start && child.root().end == c - 1);
                    assert(input.subrange(it.start, it.end) =~= input.subrange(
                        it.start,
                        c - 1,
                    ).push(input[c - 1]));
                    assert(p.yield_of() == input.subrange(it.start, it.end));
                    assert(col_has(cols[it.end], it));
                    assert(child.root() == (ItemV { dot: it.dot - 1, end: it.end - 1, ..it }));
                }
                p
            },
            InsertedBy::Comp(lr, rr) => {
                let yname = match &e.item.exp[e.item.dot - 1] {
                    Token::NonTerm(y) => y,
                    Token::Term(_) => unreached(),
                };
                proof {
                    let kb = choose|kb: int|
                        0 <= kb < k && completed_matches(
                            (#[trigger] cols[c as int][kb]).item,
                            it.exp[it.dot - 1]->NonTerm_0,
                            rr.start as int,
                            c as int,
                        );
                }
                let kb2 = match self.table.find_completed(c, yname, rr.start) {
                    Some(kb2) => kb2,
                    None => {
                        proof {
                            assert(false);
                        }
                        unreached()
                    },
                };
                proof {
                    assert(kb2 < k) by {
                        let kb = choose|kb: int|
                            0 <= kb < k && completed_matches(
                                (#[trigger] cols[c as int][kb]).item,
                                it.exp[it.dot - 1]->NonTerm_0,
                                rr.start as int,
                                c as int,
                            );
                        if kb2 > kb {
                            assert(!completed_matches(
                                cols[c as int][kb].item,
                                yname@,
                                rr.start as int,
                                c as int,
                            ));
                        }
                    }
                }
                let target = Item {
                    name: e.item.name.clone(),
                    exp: clone_tokens(&e.item.exp),
                    dot: e.item.dot - 1,
                    start: lr.start,
                    end: lr.end,
                };
                proof {
                    assert(target@ =~= comp_mu_of(it, lr));
                }
                let kcol = lr.end;
                let km = match self.table.find_in_col(kcol, &target) {
                    Some(km) => km,
                    None => {
                        proof {
                            if kcol < c {
                                assert(col_has(cols[kcol as int], comp_mu_of(it, lr)));
                            } else {
                                let w = choose|w: int|
                                    0 <= w < k && (#[trigger] cols[c as int][w]).item
                                        == comp_mu_of(it, lr);
                                assert(col_has(cols[c as int], comp_mu_of(it, lr)));
                            }
                            assert(false);
                        }
                        unreached()
                    },
                };
                proof {
                    if kcol == c {
                        assert(km < k) by {
                            let w = choose|w: int|
                                0 <= w < k && (#[trigger] cols[c as int][w]).item == comp_mu_of(
                                    it,
                                    lr,
                                );
                            if km > w {
                                assert(cols[c as int][w].item != target@);
                            }
                        }
                    }
                }
                let mu_proof = self.reconstruct_entry(kcol, km);
                let b_proof = self.reconstruct_entry(c, kb2);
                let p = ProofTree::Comp(
                    e.item.duplicate(),
                    Box::new(mu_proof),
                    Box::new(b_proof),
                );
                proof {
                    assert(p.root() == it);
                    assert(mu_proof.root().start == it.start && mu_proof.root().end == lr.end);
                    assert(b_proof.root().start == rr.start && b_proof.root().end == c);
                    assert(input.subrange(it.start, it.end) =~= input.subrange(it.start, lr.end as int)
                        + input.subrange(lr.end as int, it.end));
                    assert(p.yield_of() == input.subrange(it.start, it.end));
                    assert(col_has(cols[it.end], it));
                    assert(b_proof.root().name == it.exp[it.dot - 1]->NonTerm_0);
                    assert(b_proof.root().is_complete());
                    assert(mu_proof.root() == (ItemV {
                        dot: it.dot - 1,
                        end: b_proof.root().start,
                        ..it
                    }));
                }
                p
            },
        }
    }

    /// Recovers a witness derivation from the accepting chart: the proof of
    /// the first final item of the last column, in enumeration order. Its
    /// root completes the start nonterminal over the whole input, every node
    /// is supported by the chart, and the leaves, read in source order, are
    /// exactly the input token sequence.
    pub fn reconstruct(&self) -> (r: FullProof)
        requires
            self.wf(),
        ensures
            r.0.root().name == self.init_name(),
            r.0.root().is_complete(),
            r.0.root().start == 0,
            r.0.root().end == self.input_view().len(),
            r.0.covers(self.input_view()),
            supported(r.0, self.columns()),
            r.0.yield_of() == self.input_view(),
    {
        let n = self.table.column_count() - 1;
        proof {
            assert(self.input_view().len() + 1 == self.columns().len());
        }
        let root_idx = match self.table.find_completed(n, self.table.initial(), 0) {
            Some(kb) => kb,
            None => {
                proof {
                    let a = choose|a: int|
                        0 <= a < self.columns()[n as int].len() && is_final_item(
                            (#[trigger] self.columns()[n as int][a]).item,
                            self.init_name(),
                        );
                    assert(col_wf(self.gram(), n as int, self.columns()[n as int]));
                    assert(completed_matches(
                        self.columns()[n as int][a].item,
                        self.init_name(),
                        0,
                        n as int,
                    ));
                    assert(false);
                }
                unreached()
            },
        };
        let p = self.reconstruct_entry(n, root_idx);
        proof {
            assert(p.yield_of() =~= self.input_view());
        }
        FullProof(p)
    }
}

} // verus!

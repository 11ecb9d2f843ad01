//! The incremental parser: accepts tokens one at a time, never commits a
//! failed step, and can report which tokens could come next.

use vstd::prelude::*;

use crate::column::{col_has, col_wf, EntryV};
use crate::errors::Error;
use crate::grammar::{grammar_closed, has_key, Grammar, ProdV};
use crate::item::ItemV;
use crate::parser::{chart_consistent, column_exact};
use crate::token::strs_view;
use crate::table::{
    accepting_col, colj_member, in_colj, item_scannable, scan_base, scanned_from, spec_can_scan,
    Table,
};
use crate::token::Token;

verus! {

/// An online front-end to the chart: the committed columns and the tokens
/// they stand for. A failed step leaves both untouched.
pub struct PrefixParser {
    table: Table,
    progress: Vec<String>,
}

impl PrefixParser {
    /// The committed chart columns.
    pub closed spec fn columns(&self) -> Seq<Seq<EntryV>> {
        self.table.columns()
    }

    /// The grammar.
    pub closed spec fn gram(&self) -> Seq<ProdV> {
        self.table.gram()
    }

    /// The start nonterminal.
    pub closed spec fn init_name(&self) -> Seq<char> {
        self.table.init_name()
    }

    /// The tokens accepted so far, in order.
    pub closed spec fn tokens_read(&self) -> Seq<Seq<char>> {
        strs_view(self.progress@)
    }

    /// A sane chart that is exactly what the construction rules dictate for
    /// the accepted tokens.
    pub closed spec fn wf(&self) -> bool {
        &&& self.table.wf()
        &&& chart_consistent(self.gram(), self.init_name(), self.columns(), self.tokens_read())
    }

    /// Starts an empty prefix parse: one column, no tokens. Fails exactly as
    /// starting the chart does.
    pub fn new(grammar: Grammar, initial: &str) -> (r: Result<PrefixParser, Error>)
        ensures
            match r {
                Ok(p) => {
                    &&& p.wf()
                    &&& p.gram() == grammar@
                    &&& p.init_name() == initial@
                    &&& p.tokens_read() == Seq::<Seq<char>>::empty()
                    &&& p.columns().len() == 1
                    &&& forall|it: ItemV|
                        col_has(p.columns()[0], it) <==> crate::table::col0_member(
                            grammar@,
                            initial@,
                            it,
                        )
                },
                Err(e) => {
                    ||| e == Error::UnknownInitial && !has_key(grammar@, initial@)
                    ||| e == Error::UnknownNonterminal && !grammar_closed(grammar@)
                },
            },
            !has_key(grammar@, initial@) ==> (r matches Err(e) && e == Error::UnknownInitial),
            has_key(grammar@, initial@) && grammar_closed(grammar@) ==> r is Ok,
    {
        let table = Table::new(grammar, initial)?;
        let p = PrefixParser { table, progress: Vec::new() };
        proof {
            assert(p.tokens_read() =~= Seq::<Seq<char>>::empty());
        }
        Ok(p)
    }

    /// Attempts to advance by `token`. Succeeds exactly when some committed
    /// item expects that terminal next — equivalently, when the speculative
    /// new column would be non-empty — and then commits exactly one new,
    /// non-empty column and records the token. On failure the parser is left
    /// exactly as it was: a rejected token can be followed by another
    /// attempt.
    pub fn try_next(&mut self, token: String) -> (r: Result<(), Error>)
        requires
            old(self).wf(),
        ensures
            final(self).wf(),
            final(self).gram() == old(self).gram(),
            final(self).init_name() == old(self).init_name(),
            match r {
                Ok(_) => {
                    &&& spec_can_scan(old(self).columns().last(), token@)
                    &&& final(self).tokens_read() == old(self).tokens_read().push(token@)
                    &&& final(self).columns().len() == old(self).columns().len() + 1
                    &&& final(self).columns().take(old(self).columns().len() as int) == old(
                        self,
                    ).columns()
                    &&& final(self).columns().last().len() > 0
                    &&& forall|it: ItemV|
                        col_has(final(self).columns().last(), it) <==> colj_member(
                            old(self).gram(),
                            old(self).columns(),
                            token@,
                            old(self).columns().len() as int,
                            it,
                        )
                },
                Err(e) => {
                    &&& *final(self) == *old(self)
                    &&& (e == Error::UnexpectedToken <==> !spec_can_scan(
                        old(self).columns().last(),
                        token@,
                    ))
                    &&& (e == Error::UnknownNonterminal ==> !grammar_closed(old(self).gram()))
                },
            },
            grammar_closed(old(self).gram()) ==> (r is Ok <==> spec_can_scan(
                old(self).columns().last(),
                token@,
            )),
    {
        let ghost g = self.gram();
        let ghost s = self.init_name();
        let ghost pre_cols = self.columns();
        let ghost pre_toks = self.tokens_read();
        if !self.table.can_scan(&token) {
            return Err(Error::UnexpectedToken);
        }
        let ghost j = pre_cols.len() as int;
        match self.table.next(&token) {
            Ok(()) => {},
            Err(e) => {
                return Err(e);
            },
        }
        proof {
            let k = choose|k: int|
                0 <= k < pre_cols.last().len() && item_scannable(
                    (#[trigger] pre_cols.last()[k]).item,
                    token@,
                );
            let prev_item = pre_cols.last()[k].item;
            assert(col_wf(g, j - 1, pre_cols[j - 1]));
            assert(prev_item.end == j - 1);
            let witness = prev_item.advanced(j);
            assert(scanned_from(token@, j, prev_item, witness));
            assert(scan_base(pre_cols, token@, j, witness));
            assert(in_colj(g, pre_cols, token@, j, 0, witness));
            assert(colj_member(g, pre_cols, token@, j, witness));
            assert(col_has(self.table.columns().last(), witness));
        }
        self.progress.push(token);
        proof {
            assert(self.tokens_read() =~= pre_toks.push(token@));
            let cols = self.table.columns();
            assert(cols.take(pre_cols.len() as int) == pre_cols);
            assert forall|jj: int|
                1 <= jj <= self.tokens_read().len() implies #[trigger] column_exact(
                g,
                cols,
                self.tokens_read()[jj - 1],
                jj,
            ) by {
                if jj < self.tokens_read().len() {
                    assert(self.tokens_read()[jj - 1] == pre_toks[jj - 1]);
                    assert(column_exact(g, pre_cols, pre_toks[jj - 1], jj));
                    assert(cols[jj] == pre_cols[jj]);
                    assert(cols.take(jj) =~= pre_cols.take(jj));
                } else {
                    assert(self.tokens_read()[jj - 1] == token@);
                    assert(cols.take(jj) =~= pre_cols);
                    assert(cols[jj] == cols.last());
                }
            }
            assert(cols[0] == pre_cols[0]);
            assert(chart_consistent(g, s, cols, self.tokens_read()));
        }
        Ok(())
    }

    /// Succeeds exactly when the committed chart is in an accepting state:
    /// its final column holds a completed production of the start
    /// nonterminal that spans all accepted tokens. Otherwise the prefix is
    /// merely incomplete.
    pub fn finish(&self) -> (r: Result<(), Error>)
        requires
            self.wf(),
        ensures
            r is Ok <==> accepting_col(self.columns().last(), self.init_name()),
            r is Err ==> r->Err_0 == Error::Incomplete,
    {
        if self.table.accepted() {
            Ok(())
        } else {
            Err(Error::Incomplete)
        }
    }

    /// The tokens accepted so far, in order.
    pub fn progress(&self) -> (r: &Vec<String>)
        ensures
            strs_view(r@) == self.tokens_read(),
    {
        &self.progress
    }

    /// The set of terminal values that `try_next` would accept right now:
    /// each value occurs once, and a value is listed exactly when some item
    /// of the current column expects it next.
    #[verifier::loop_isolation(false)]
    pub fn legal_tokens(&self) -> (r: Vec<String>)
        requires
            self.wf(),
        ensures
            forall|a: int, b: int| 0 <= a < b < r@.len() ==> r@[a]@ != r@[b]@,
            forall|tok: Seq<char>|
                (exists|m: int| 0 <= m < r@.len() && r@[m]@ == tok) <==> spec_can_scan(
                    self.columns().last(),
                    tok,
                ),
    {
        let last = self.table.column_count() - 1;
        let ghost colv = self.columns().last();
        let n = self.table.col_len(last);
        let mut out: Vec<String> = Vec::new();
        let mut k: usize = 0;
        while k < n
            invariant
                k <= n,
                n == colv.len(),
                forall|a: int, b: int| 0 <= a < b < out@.len() ==> out@[a]@ != out@[b]@,
                forall|m: int|
                    0 <= m < out@.len() ==> spec_can_scan(colv, (#[trigger] out@[m])@),
                forall|a: int|
                    0 <= a < k && item_scannable((#[trigger] colv[a]).item, colv[a].item.next_sym()->Term_0)
                        ==> exists|m: int|
                        0 <= m < out@.len() && (#[trigger] out@[m])@ == colv[a].item.next_sym()->Term_0,
            decreases n - k,
        {
            let e = self.table.entry_at(last, k);
            assert(e.item@ == colv[k as int].item && e.item@.wf());
            let mut term_val: Option<&String> = None;
            if let Some(tk) = e.item.next_symbol() {
                if let Token::Term(v) = tk {
                    term_val = Some(v);
                }
            }
            assert(match term_val {
                Some(v) => item_scannable(colv[k as int].item, v@),
                None => forall|tok: Seq<char>| !item_scannable(colv[k as int].item, tok),
            });
            let ghost preout = out@;
            if let Some(v) = term_val {
                assert(spec_can_scan(colv, v@));
                if !contains_string(&out, v) {
                    out.push(v.clone());
                }
                proof {
                    assert(exists|m: int|
                        0 <= m < out@.len() && (#[trigger] out@[m])@ == v@) by {
                        if out@.len() == preout.len() {
                            let m = choose|m: int|
                                0 <= m < preout.len() && (#[trigger] preout[m])@ == v@;
                            assert(out@[m]@ == v@);
                        } else {
                            assert(out@[preout.len() as int]@ == v@);
                        }
                    }
                }
            }
            proof {
                assert forall|a: int|
                    0 <= a < k + 1 && item_scannable(
                        (#[trigger] colv[a]).item,
                        colv[a].item.next_sym()->Term_0,
                    ) implies exists|m: int|
                    0 <= m < out@.len() && (#[trigger] out@[m])@
                        == colv[a].item.next_sym()->Term_0 by {
                    if a < k {
                        let m = choose|m: int|
                            0 <= m < preout.len() && (#[trigger] preout[m])@
                                == colv[a].item.next_sym()->Term_0;
                        assert(out@[m] == preout[m]);
                    }
                }
            }
            k += 1;
        }
        proof {
            assert forall|tok: Seq<char>|
                (exists|m: int| 0 <= m < out@.len() && out@[m]@ == tok) <==> spec_can_scan(
                    colv,
                    tok,
                ) by {
                if exists|m: int| 0 <= m < out@.len() && out@[m]@ == tok {
                    let m = choose|m: int| 0 <= m < out@.len() && out@[m]@ == tok;
                    assert(spec_can_scan(colv, out@[m]@));
                }
                if spec_can_scan(colv, tok) {
                    let a = choose|a: int|
                        0 <= a < colv.len() && item_scannable((#[trigger] colv[a]).item, tok);
                    assert(colv[a].item.next_sym()->Term_0 == tok);
                    assert(item_scannable(colv[a].item, colv[a].item.next_sym()->Term_0));
                }
            }
        }
        out
    }
}

/// Whether some element of `v` has the view of `s`.
fn contains_string(v: &Vec<String>, s: &String) -> (r: bool)
    ensures
        r == exists|m: int| 0 <= m < v@.len() && (#[trigger] v@[m])@ == s@,
{
    let mut m: usize = 0;
    while m < v.len()
        invariant
            m <= v.len(),
            forall|a: int| 0 <= a < m ==> (#[trigger] v@[a])@ != s@,
        decreases v.len() - m,
    {
        if v[m] == *s {
            return true;
        }
        m += 1;
    }
    false
}

} // verus!

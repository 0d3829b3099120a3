//! Statements: ordered sequences of expressions, and their expansion into
//! the ordered list of all fully resolved strings.

use vstd::prelude::*;

use crate::expression::{
    expr_wf, iter_values, iter_wf, lemma_iter_values_nonempty, render_stmt, stmt_wf, Expression,
    ExpressionView, Permutation, PermutationView, VariableName,
};

verus! {

// ---------------------------------------------------------------------------
// Choosing the permutation to resolve next
// ---------------------------------------------------------------------------

pub open spec fn is_perm(e: ExpressionView) -> bool {
    e is Permutation
}

pub open spec fn perm_of(e: ExpressionView) -> PermutationView {
    match e {
        ExpressionView::Permutation(p) => p,
        _ => PermutationView {
            iterable: crate::expression::IterableView::Disjunction(Seq::empty()),
            ordering: None,
            var_name: None,
            hidden: false,
        },
    }
}

/// Resolution priority: no explicit ordering sorts before every explicit
/// value; explicit values compare numerically.
pub open spec fn key_lt(a: PermutationView, b: PermutationView) -> bool {
    match (a.ordering, b.ordering) {
        (None, Some(_)) => true,
        (None, None) => false,
        (Some(_), None) => false,
        (Some(x), Some(y)) => x < y,
    }
}

/// The permutation resolved next: smallest key, ties broken by the leftmost
/// position.
pub open spec fn chosen_in(es: Seq<ExpressionView>) -> Option<int>
    decreases es.len(),
{
    if es.len() == 0 {
        None
    } else {
        let last = es[es.len() - 1];
        match chosen_in(es.drop_last()) {
            None => if is_perm(last) {
                Some(es.len() - 1)
            } else {
                None
            },
            Some(i) => if is_perm(last) && key_lt(perm_of(last), perm_of(es[i])) {
                Some(es.len() - 1)
            } else {
                Some(i)
            },
        }
    }
}

pub proof fn lemma_chosen_in(es: Seq<ExpressionView>)
    ensures
        chosen_in(es) is None ==> forall|j: int| 0 <= j < es.len() ==> !is_perm(#[trigger] es[j]),
        chosen_in(es) matches Some(i) ==> 0 <= i < es.len() && is_perm(es[i]) && (forall|j: int|
            0 <= j < i && is_perm(#[trigger] es[j]) ==> key_lt(perm_of(es[i]), perm_of(es[j])))
            && (forall|j: int|
            i < j < es.len() && is_perm(#[trigger] es[j]) ==> !key_lt(
                perm_of(es[j]),
                perm_of(es[i]),
            )),
    decreases es.len(),
{
    if es.len() == 0 {
    } else {
        let p = es.drop_last();
        lemma_chosen_in(p);
        assert(forall|j: int| 0 <= j < p.len() ==> p[j] == es[j]);
    }
}

// ---------------------------------------------------------------------------
// Substitution
// ---------------------------------------------------------------------------

pub open spec fn subst_expr(
    e: ExpressionView,
    var: Option<Seq<char>>,
    value: Seq<char>,
) -> ExpressionView {
    match e {
        ExpressionView::Variable(n) => if var == Some(n) {
            ExpressionView::Literal(value)
        } else {
            e
        },
        _ => e,
    }
}

/// One derived statement: every matching variable reference becomes the
/// value; the permutation node itself becomes the value, or vanishes when
/// hidden.
pub open spec fn subst_stmt(es: Seq<ExpressionView>, i: int, value: Seq<char>) -> Seq<
    ExpressionView,
>
    recommends
        0 <= i < es.len(),
        is_perm(es[i]),
{
    let p = perm_of(es[i]);
    let m = es.map_values(|e: ExpressionView| subst_expr(e, p.var_name, value));
    if p.hidden {
        m.remove(i)
    } else {
        m.update(i, ExpressionView::Literal(value))
    }
}

/// A hidden permutation must bind a name that some reference uses.
pub open spec fn has_visible_use(es: Seq<ExpressionView>, var: Option<Seq<char>>) -> bool {
    match var {
        None => false,
        Some(n) => exists|j: int| 0 <= j < es.len() && es[j] == ExpressionView::Variable(n),
    }
}

// ---------------------------------------------------------------------------
// Resolution of a permutation-free statement
// ---------------------------------------------------------------------------

pub open spec fn var_error_msg(n: Seq<char>) -> Seq<char> {
    "Variable "@ + n + " is never defined"@
}

pub open spec fn hidden_error_msg() -> Seq<char> {
    "hidden permutation has no visible use"@
}

pub open spec fn lits_concat(es: Seq<ExpressionView>) -> Seq<char>
    decreases es.len(),
{
    if es.len() == 0 {
        Seq::empty()
    } else {
        (match es[0] {
            ExpressionView::Literal(t) => t,
            _ => Seq::<char>::empty(),
        }) + lits_concat(es.skip(1))
    }
}

/// One message for every unresolved variable reference, in order.
pub open spec fn error_list(es: Seq<ExpressionView>) -> Seq<Seq<char>>
    decreases es.len(),
{
    if es.len() == 0 {
        Seq::empty()
    } else {
        (match es[0] {
            ExpressionView::Variable(n) => seq![var_error_msg(n)],
            _ => Seq::<Seq<char>>::empty(),
        }) + error_list(es.skip(1))
    }
}

pub open spec fn join_msgs(ms: Seq<Seq<char>>) -> Seq<char>
    decreases ms.len(),
{
    if ms.len() == 0 {
        Seq::empty()
    } else if ms.len() == 1 {
        ms[0]
    } else {
        ms[0] + "; "@ + join_msgs(ms.skip(1))
    }
}

/// With no permutations left: all unresolved references joined into one
/// error, else the literals concatenated in order.
pub open spec fn resolve_spec(es: Seq<ExpressionView>) -> Result<Seq<char>, Seq<char>> {
    if error_list(es).len() == 0 {
        Ok(lits_concat(es))
    } else {
        Err(join_msgs(error_list(es)))
    }
}

proof fn lemma_lits_push(es: Seq<ExpressionView>, e: ExpressionView)
    ensures
        lits_concat(es.push(e)) == lits_concat(es) + (match e {
            ExpressionView::Literal(t) => t,
            _ => Seq::<char>::empty(),
        }),
    decreases es.len(),
{
    let tail = (match e {
        ExpressionView::Literal(t) => t,
        _ => Seq::<char>::empty(),
    });
    if es.len() == 0 {
        reveal_with_fuel(lits_concat, 2);
        assert(es.push(e).skip(1) =~= Seq::<ExpressionView>::empty());
        assert(lits_concat(es.push(e)) =~= tail);
        assert(lits_concat(es) + tail =~= tail);
    } else {
        lemma_lits_push(es.skip(1), e);
        assert(es.push(e).skip(1) =~= es.skip(1).push(e));
        let h = (match es[0] {
            ExpressionView::Literal(t) => t,
            _ => Seq::<char>::empty(),
        });
        assert(lits_concat(es.push(e)) == h + (lits_concat(es.skip(1)) + tail));
        assert(h + (lits_concat(es.skip(1)) + tail) =~= (h + lits_concat(es.skip(1))) + tail);
    }
}

proof fn lemma_errs_push(es: Seq<ExpressionView>, e: ExpressionView)
    ensures
        error_list(es.push(e)) == error_list(es) + (match e {
            ExpressionView::Variable(n) => seq![var_error_msg(n)],
            _ => Seq::<Seq<char>>::empty(),
        }),
    decreases es.len(),
{
    let tail = (match e {
        ExpressionView::Variable(n) => seq![var_error_msg(n)],
        _ => Seq::<Seq<char>>::empty(),
    });
    if es.len() == 0 {
        reveal_with_fuel(error_list, 2);
        assert(es.push(e).skip(1) =~= Seq::<ExpressionView>::empty());
        assert(error_list(es.push(e)) =~= tail);
        assert(error_list(es) + tail =~= tail);
    } else {
        lemma_errs_push(es.skip(1), e);
        assert(es.push(e).skip(1) =~= es.skip(1).push(e));
        let h = (match es[0] {
            ExpressionView::Variable(n) => seq![var_error_msg(n)],
            _ => Seq::<Seq<char>>::empty(),
        });
        assert(error_list(es.push(e)) == h + (error_list(es.skip(1)) + tail));
        assert(h + (error_list(es.skip(1)) + tail) =~= (h + error_list(es.skip(1))) + tail);
    }
}

proof fn lemma_join_msgs_push(ms: Seq<Seq<char>>, m: Seq<char>)
    ensures
        join_msgs(ms.push(m)) == if ms.len() == 0 {
            m
        } else {
            join_msgs(ms) + "; "@ + m
        },
    decreases ms.len(),
{
    if ms.len() == 0 {
        assert(join_msgs(ms.push(m)) == ms.push(m)[0]);
    } else if ms.len() == 1 {
        reveal_with_fuel(join_msgs, 3);
        assert(ms.push(m).skip(1) =~= seq![m]);
        assert(join_msgs(ms.push(m)) == ms[0] + "; "@ + m);
    } else {
        lemma_join_msgs_push(ms.skip(1), m);
        assert(ms.push(m).skip(1) =~= ms.skip(1).push(m));
        assert(join_msgs(ms.push(m)) == ms[0] + "; "@ + (join_msgs(ms.skip(1)) + "; "@ + m));
        assert(ms[0] + "; "@ + (join_msgs(ms.skip(1)) + "; "@ + m) =~= (ms[0] + "; "@ + join_msgs(
            ms.skip(1),
        )) + "; "@ + m);
    }
}

// ---------------------------------------------------------------------------
// One expansion step, and expansion to a fixed point
// ---------------------------------------------------------------------------

/// The meaning of one expansion step.
pub enum ExpandedView {
    Branch(Seq<Seq<ExpressionView>>),
    Resolved(Seq<char>),
}

/// One step: no permutation left means resolution; otherwise the chosen
/// permutation branches into one derived statement per value, unless it is
/// hidden without a visible use.
pub open spec fn expand_spec(es: Seq<ExpressionView>) -> Result<ExpandedView, Seq<char>> {
    match chosen_in(es) {
        None => match resolve_spec(es) {
            Ok(t) => Ok(ExpandedView::Resolved(t)),
            Err(m) => Err(m),
        },
        Some(i) => {
            let p = perm_of(es[i]);
            if p.hidden && !has_visible_use(es, p.var_name) {
                Err(hidden_error_msg())
            } else {
                let vals = iter_values(p.iterable);
                Ok(
                    ExpandedView::Branch(
                        Seq::new(vals.len(), |k: int| subst_stmt(es, i, vals[k])),
                    ),
                )
            }
        },
    }
}

pub open spec fn count_perms(es: Seq<ExpressionView>) -> nat
    decreases es.len(),
{
    if es.len() == 0 {
        0
    } else {
        (if is_perm(es[0]) {
            1nat
        } else {
            0nat
        }) + count_perms(es.skip(1))
    }
}

proof fn lemma_count_pointwise(a: Seq<ExpressionView>, b: Seq<ExpressionView>)
    requires
        a.len() == b.len(),
        forall|j: int| 0 <= j < a.len() ==> is_perm(a[j]) == is_perm(#[trigger] b[j]),
    ensures
        count_perms(a) == count_perms(b),
    decreases a.len(),
{
    if a.len() > 0 {
        assert(forall|j: int|
            0 <= j < a.skip(1).len() ==> is_perm(a.skip(1)[j]) == is_perm(#[trigger] b.skip(1)[j]))
            by {
            assert(forall|j: int| 0 <= j < a.skip(1).len() ==> a.skip(1)[j] == a[j + 1]);
            assert(forall|j: int| 0 <= j < b.skip(1).len() ==> b.skip(1)[j] == b[j + 1]);
        }
        lemma_count_pointwise(a.skip(1), b.skip(1));
    }
}

proof fn lemma_count_update(es: Seq<ExpressionView>, i: int, e: ExpressionView)
    requires
        0 <= i < es.len(),
        is_perm(es[i]),
        !is_perm(e),
    ensures
        count_perms(es.update(i, e)) == count_perms(es) - 1,
    decreases es.len(),
{
    if i == 0 {
        assert(es.update(0, e).skip(1) =~= es.skip(1));
    } else {
        assert(es.update(i, e).skip(1) =~= es.skip(1).update(i - 1, e));
        lemma_count_update(es.skip(1), i - 1, e);
    }
}

proof fn lemma_count_remove(es: Seq<ExpressionView>, i: int)
    requires
        0 <= i < es.len(),
        is_perm(es[i]),
    ensures
        count_perms(es.remove(i)) == count_perms(es) - 1,
    decreases es.len(),
{
    if i == 0 {
        assert(es.remove(0) =~= es.skip(1));
    } else {
        assert(es.remove(i).skip(1) =~= es.skip(1).remove(i - 1));
        assert(es.remove(i)[0] == es[0]);
        lemma_count_remove(es.skip(1), i - 1);
    }
}

/// Every derived statement has exactly one permutation fewer.
pub proof fn lemma_subst_count(es: Seq<ExpressionView>, i: int, value: Seq<char>)
    requires
        0 <= i < es.len(),
        is_perm(es[i]),
    ensures
        count_perms(subst_stmt(es, i, value)) == count_perms(es) - 1,
{
    let p = perm_of(es[i]);
    let m = es.map_values(|e: ExpressionView| subst_expr(e, p.var_name, value));
    lemma_count_pointwise(m, es);
    if p.hidden {
        lemma_count_remove(m, i);
    } else {
        lemma_count_update(m, i, ExpressionView::Literal(value));
    }
}

/// Substitution preserves well-formedness.
pub proof fn lemma_subst_wf(es: Seq<ExpressionView>, i: int, value: Seq<char>)
    requires
        0 <= i < es.len(),
        is_perm(es[i]),
        stmt_wf(es),
    ensures
        stmt_wf(subst_stmt(es, i, value)),
{
    let p = perm_of(es[i]);
    let m = es.map_values(|e: ExpressionView| subst_expr(e, p.var_name, value));
    assert(forall|j: int| 0 <= j < m.len() ==> #[trigger] expr_wf(m[j]));
}

/// The full expansion: depth-first, the chosen permutation outermost, any
/// error anywhere aborting the whole result.
pub open spec fn full_expansion(es: Seq<ExpressionView>) -> Result<Seq<Seq<char>>, Seq<char>>
    decreases count_perms(es) + 1nat, 0nat,
{
    match expand_spec(es) {
        Err(m) => Err(m),
        Ok(ExpandedView::Resolved(t)) => Ok(seq![t]),
        Ok(ExpandedView::Branch(children)) => expand_list(children, count_perms(es)),
    }
}

/// Expand a list of derived statements (each with fewer than `b`
/// permutations), concatenating the results in order.
pub open spec fn expand_list(children: Seq<Seq<ExpressionView>>, b: nat) -> Result<
    Seq<Seq<char>>,
    Seq<char>,
>
    decreases b, children.len(),
{
    if children.len() == 0 {
        Ok(Seq::empty())
    } else if count_perms(children[0]) < b {
        match full_expansion(children[0]) {
            Err(m) => Err(m),
            Ok(outs) => match expand_list(children.skip(1), b) {
                Err(m) => Err(m),
                Ok(rest) => Ok(outs + rest),
            },
        }
    } else {
        Err(Seq::empty())
    }
}

/// The total number of expansion steps a statement will take: its own step
/// plus those of every derived statement.
pub open spec fn tree_size(es: Seq<ExpressionView>) -> nat
    decreases count_perms(es) + 1nat, 0nat,
{
    match expand_spec(es) {
        Ok(ExpandedView::Branch(children)) => 1 + list_size(children, count_perms(es)),
        _ => 1,
    }
}

pub open spec fn list_size(children: Seq<Seq<ExpressionView>>, b: nat) -> nat
    decreases b, children.len(),
{
    if children.len() == 0 {
        0
    } else if count_perms(children[0]) < b {
        tree_size(children[0]) + list_size(children.skip(1), b)
    } else {
        0
    }
}

pub open spec fn pending_size(ps: Seq<Seq<ExpressionView>>) -> nat
    decreases ps.len(),
{
    if ps.len() == 0 {
        0
    } else {
        tree_size(ps[0]) + pending_size(ps.skip(1))
    }
}

proof fn lemma_list_size_pending(children: Seq<Seq<ExpressionView>>, b: nat)
    requires
        forall|k: int| 0 <= k < children.len() ==> count_perms(#[trigger] children[k]) < b,
    ensures
        list_size(children, b) == pending_size(children),
    decreases children.len(),
{
    if children.len() > 0 {
        assert(forall|k: int|
            0 <= k < children.skip(1).len() ==> children.skip(1)[k] == children[k + 1]);
        lemma_list_size_pending(children.skip(1), b);
    }
}

proof fn lemma_pending_split(ps1: Seq<Seq<ExpressionView>>, ps2: Seq<Seq<ExpressionView>>)
    ensures
        pending_size(ps1 + ps2) == pending_size(ps1) + pending_size(ps2),
    decreases ps1.len(),
{
    if ps1.len() == 0 {
        assert(ps1 + ps2 =~= ps2);
    } else {
        assert((ps1 + ps2)[0] == ps1[0]);
        assert((ps1 + ps2).skip(1) =~= ps1.skip(1) + ps2);
        lemma_pending_split(ps1.skip(1), ps2);
    }
}

/// The work list of a running expansion, processed front first: the already
/// collected results, then each pending statement's full expansion in order,
/// with the first error anywhere winning.
pub open spec fn combine_pending(rs: Seq<Seq<char>>, ps: Seq<Seq<ExpressionView>>) -> Result<
    Seq<Seq<char>>,
    Seq<char>,
>
    decreases ps.len(),
{
    if ps.len() == 0 {
        Ok(rs)
    } else {
        match full_expansion(ps[0]) {
            Err(m) => Err(m),
            Ok(outs) => combine_pending(rs + outs, ps.skip(1)),
        }
    }
}

proof fn lemma_combine_prefix(rs: Seq<Seq<char>>, ps: Seq<Seq<ExpressionView>>)
    ensures
        combine_pending(rs, ps) == (match combine_pending(Seq::empty(), ps) {
            Err(m) => Err(m),
            Ok(o) => Ok(rs + o),
        }),
    decreases ps.len(),
{
    if ps.len() == 0 {
        assert(rs + Seq::<Seq<char>>::empty() =~= rs);
    } else {
        match full_expansion(ps[0]) {
            Err(_) => {},
            Ok(outs) => {
                lemma_combine_prefix(rs + outs, ps.skip(1));
                lemma_combine_prefix(outs, ps.skip(1));
                assert(Seq::<Seq<char>>::empty() + outs =~= outs);
                match combine_pending(Seq::empty(), ps.skip(1)) {
                    Err(_) => {},
                    Ok(o) => {
                        assert((rs + outs) + o =~= rs + (outs + o));
                    },
                }
            },
        }
    }
}

proof fn lemma_combine_split(
    rs: Seq<Seq<char>>,
    ps1: Seq<Seq<ExpressionView>>,
    ps2: Seq<Seq<ExpressionView>>,
)
    ensures
        combine_pending(rs, ps1 + ps2) == (match combine_pending(rs, ps1) {
            Err(m) => Err(m),
            Ok(o) => combine_pending(o, ps2),
        }),
    decreases ps1.len(),
{
    if ps1.len() == 0 {
        assert(ps1 + ps2 =~= ps2);
    } else {
        assert((ps1 + ps2)[0] == ps1[0]);
        match full_expansion(ps1[0]) {
            Err(_) => {},
            Ok(outs) => {
                assert((ps1 + ps2).skip(1) =~= ps1.skip(1) + ps2);
                lemma_combine_split(rs + outs, ps1.skip(1), ps2);
            },
        }
    }
}

/// `expand_list` with a valid bound is the work-list combination.
proof fn lemma_expand_list_eq(children: Seq<Seq<ExpressionView>>, b: nat)
    requires
        forall|k: int| 0 <= k < children.len() ==> count_perms(#[trigger] children[k]) < b,
    ensures
        expand_list(children, b) == combine_pending(Seq::empty(), children),
    decreases children.len(),
{
    if children.len() == 0 {
    } else {
        match full_expansion(children[0]) {
            Err(_) => {},
            Ok(outs) => {
                assert(forall|k: int|
                    0 <= k < children.skip(1).len() ==> count_perms(
                        #[trigger] children.skip(1)[k],
                    ) < b) by {
                    assert(forall|k: int|
                        0 <= k < children.skip(1).len() ==> children.skip(1)[k] == children[k + 1]);
                }
                lemma_expand_list_eq(children.skip(1), b);
                lemma_combine_prefix(outs, children.skip(1));
                assert(Seq::<Seq<char>>::empty() + outs =~= outs);
            },
        }
    }
}

/// An expansion error, surfaced as a display string.
#[derive(Debug)]
pub struct ExpansionError {
    pub message: String,
}

impl View for ExpansionError {
    type V = Seq<char>;

    open spec fn view(&self) -> Seq<char> {
        self.message@
    }
}

/// What one expansion step yields: further statements, or a final string.
pub enum Expanded {
    Branch(Vec<Statement>),
    Resolved(String),
}

/// An ordered sequence of expressions; order is significant and preserved
/// through every rewrite.
pub struct Statement(pub Vec<Expression>);

impl View for Statement {
    type V = Seq<ExpressionView>;

    open spec fn view(&self) -> Seq<ExpressionView> {
        self.0@.map_values(|e: Expression| e@)
    }
}

impl Clone for Statement {
    fn clone(&self) -> (r: Self)
        ensures
            r@ == self@,
    {
        let mut out: Vec<Expression> = Vec::new();
        let mut i: usize = 0;
        #[verifier::loop_isolation(false)]
        while i < self.0.len()
            invariant
                i <= self.0.len(),
                out@.map_values(|e: Expression| e@) =~= self@.take(i as int),
            decreases self.0.len() - i,
        {
            out.push(self.0[i].clone());
            proof {
                assert(out@.map_values(|e: Expression| e@) =~= self@.take(i + 1));
            }
            i = i + 1;
        }
        let r = Statement(out);
        proof {
            assert(r@ =~= self@);
        }
        r
    }
}

impl Statement {
    /// Canonical round-trip rendering: the concatenation of the renderings
    /// of the expressions, in order.
    pub fn to_text(&self) -> (r: String)
        requires
            stmt_wf(self@),
        ensures
            r@ == render_stmt(self@),
    {
        let mut r = String::new();
        let mut i: usize = 0;
        proof {
            assert(render_stmt(self@.take(0)) =~= Seq::<char>::empty());
        }
        #[verifier::loop_isolation(false)]
        while i < self.0.len()
            invariant
                i <= self.0.len(),
                r@ == render_stmt(self@.take(i as int)),
            decreases self.0.len() - i,
        {
            proof {
                assert(crate::expression::expr_wf(self@[i as int]));
            }
            let t = self.0[i].to_text();
            r.append(t.as_str());
            proof {
                crate::expression::lemma_render_stmt_push(self@.take(i as int), self@[i as int]);
                assert(self@.take(i + 1) =~= self@.take(i as int).push(self@[i as int]));
            }
            i = i + 1;
        }
        proof {
            assert(self@.take(self.0.len() as int) =~= self@);
        }
        r
    }

    /// One expansion step, exactly as `expand_spec` describes: branch on the
    /// chosen permutation's values, resolve when none is left, or fail.
    #[verifier::rlimit(100)]
    #[verifier::spinoff_prover]
    pub fn expand(&self) -> (r: Result<Expanded, ExpansionError>)
        requires
            stmt_wf(self@),
        ensures
            r is Ok <==> expand_spec(self@) is Ok,
            r matches Err(e) ==> expand_spec(self@) matches Err(m) && e@ == m,
            r matches Ok(Expanded::Resolved(s)) ==> expand_spec(self@) == Ok::<
                ExpandedView,
                Seq<char>,
            >(ExpandedView::Resolved(s@)),
            r matches Ok(Expanded::Branch(v)) ==> expand_spec(self@) == Ok::<
                ExpandedView,
                Seq<char>,
            >(ExpandedView::Branch(v@.map_values(|st: Statement| st@))),
    {
        let ghost es = self@;
        proof {
            lemma_chosen_in(es);
        }
        let n = self.0.len();
        let mut best: Option<usize> = None;
        let mut best_ord: Option<u64> = None;
        let mut i: usize = 0;
        #[verifier::loop_isolation(false)]
        while i < n
            invariant
                i <= n,
                match best {
                    None => (best_ord is None) && forall|j: int|
                        0 <= j < i ==> !is_perm(#[trigger] es[j]),
                    Some(bi) => bi < i && is_perm(es[bi as int]) && best_ord == perm_of(
                        es[bi as int],
                    ).ordering && forall|j: int|
                        0 <= j < i && is_perm(#[trigger] es[j]) ==> (!key_lt(
                            perm_of(es[j]),
                            perm_of(es[bi as int]),
                        ) && (key_lt(perm_of(es[bi as int]), perm_of(es[j])) || bi <= j)),
                },
            decreases n - i,
        {
            match &self.0[i] {
                Expression::Permutation(p) => {
                    let take_it = match (best, p.ordering, best_ord) {
                        (None, _, _) => true,
                        (Some(_), None, Some(_)) => true,
                        (Some(_), Some(x), Some(y)) => x < y,
                        (Some(_), _, None) => false,
                    };
                    if take_it {
                        best = Some(i);
                        best_ord = p.ordering;
                    }
                },
                _ => {},
            }
            i = i + 1;
        }
        match best {
            None => {
                proof {
                    match chosen_in(es) {
                        Some(ci) => {
                            assert(is_perm(es[ci]));
                            assert(false);
                        },
                        None => {},
                    }
                }
                // no permutation is left: read every node as a literal and
                // collect every unresolved variable reference
                let mut out_str = String::new();
                let mut err_str = String::new();
                let mut has_err = false;
                let mut j: usize = 0;
                proof {
                    assert(es.take(0) =~= Seq::<ExpressionView>::empty());
                }
                #[verifier::loop_isolation(false)]
                while j < n
                    invariant
                        j <= n,
                        out_str@ == lits_concat(es.take(j as int)),
                        err_str@ == join_msgs(error_list(es.take(j as int))),
                        has_err == (error_list(es.take(j as int)).len() > 0),
                    decreases n - j,
                {
                    proof {
                        lemma_lits_push(es.take(j as int), es[j as int]);
                        lemma_errs_push(es.take(j as int), es[j as int]);
                        assert(es.take(j + 1) =~= es.take(j as int).push(es[j as int]));
                    }
                    match &self.0[j] {
                        Expression::Literal(t) => {
                            out_str.append(t.as_str());
                            proof {
                                assert(error_list(es.take(j + 1)) =~= error_list(
                                    es.take(j as int),
                                ));
                            }
                        },
                        Expression::Variable(v) => {
                            if has_err {
                                err_str.append("; ");
                            }
                            err_str.append("Variable ");
                            err_str.append(v.0.as_str());
                            err_str.append(" is never defined");
                            has_err = true;
                            proof {
                                lemma_join_msgs_push(
                                    error_list(es.take(j as int)),
                                    var_error_msg(v@),
                                );
                                assert(es[j as int] == ExpressionView::Variable(v@));
                                assert(error_list(es.take(j + 1)) =~= error_list(
                                    es.take(j as int),
                                ).push(var_error_msg(v@)));
                                assert(err_str@ =~= join_msgs(error_list(es.take(j + 1))));
                                assert(lits_concat(es.take(j + 1)) =~= lits_concat(
                                    es.take(j as int),
                                ));
                            }
                        },
                        Expression::Permutation(_) => {
                            proof {
                                assert(is_perm(es[j as int]));
                                assert(false);
                            }
                        },
                    }
                    j = j + 1;
                }
                proof {
                    assert(es.take(n as int) =~= es);
                }
                if has_err {
                    Err(ExpansionError { message: err_str })
                } else {
                    Ok(Expanded::Resolved(out_str))
                }
            },
            Some(bi) => {
                proof {
                    if chosen_in(es) is None {
                        assert(!is_perm(es[bi as int]));
                        assert(false);
                    }
                    let ci = chosen_in(es).unwrap();
                    if ci < bi {
                        assert(is_perm(es[ci]));
                        assert(key_lt(perm_of(es[bi as int]), perm_of(es[ci])));
                        assert(!key_lt(perm_of(es[bi as int]), perm_of(es[ci])));
                    } else if bi < ci {
                        assert(is_perm(es[bi as int]));
                        assert(key_lt(perm_of(es[ci]), perm_of(es[bi as int])));
                        assert(!key_lt(perm_of(es[ci]), perm_of(es[bi as int])));
                    }
                    assert(chosen_in(es) == Some(bi as int));
                }
                match &self.0[bi] {
                    Expression::Permutation(perm) => {
                        let ghost p = perm_of(es[bi as int]);
                        if perm.hidden {
                            let used = match &perm.var_name {
                                None => false,
                                Some(vn) => {
                                    let mut found = false;
                                    let mut j: usize = 0;
                                    #[verifier::loop_isolation(false)]
                                    while j < n
                                        invariant
                                            j <= n,
                                            found == exists|t: int|
                                                0 <= t < j && es[t] == ExpressionView::Variable(
                                                    vn@,
                                                ),
                                        decreases n - j,
                                    {
                                        match &self.0[j] {
                                            Expression::Variable(other) => {
                                                if other.0 == vn.0 {
                                                    proof {
                                                        assert(es[j as int]
                                                            == ExpressionView::Variable(vn@));
                                                    }
                                                    found = true;
                                                }
                                            },
                                            _ => {},
                                        }
                                        j = j + 1;
                                    }
                                    found
                                },
                            };
                            if !used {
                                proof {
                                    assert(!has_visible_use(es, p.var_name));
                                }
                                return Err(
                                    ExpansionError {
                                        message: "hidden permutation has no visible use".to_owned(),
                                    },
                                );
                            }
                        }
                        proof {
                            assert(expr_wf(es[bi as int]));
                        }
                        let values = perm.iterable.collect_vec();
                        let ghost vals = iter_values(p.iterable);
                        let mut children: Vec<Statement> = Vec::new();
                        let mut k: usize = 0;
                        #[verifier::loop_isolation(false)]
                        while k < values.len()
                            invariant
                                k <= values.len(),
                                values@.map_values(|s: String| s@) == vals,
                                children@.map_values(|st: Statement| st@) =~= Seq::new(
                                    k as nat,
                                    |k2: int| subst_stmt(es, bi as int, vals[k2]),
                                ),
                            decreases values.len() - k,
                        {
                            let ghost value_v = vals[k as int];
                            let ghost m = es.map_values(
                                |e: ExpressionView| subst_expr(e, p.var_name, value_v),
                            );
                            let mut child: Vec<Expression> = Vec::new();
                            let mut j: usize = 0;
                            #[verifier::loop_isolation(false)]
                            while j < n
                                invariant
                                    j <= n,
                                    child@.map_values(|e: Expression| e@) =~= (if j <= bi {
                                        m.take(j as int)
                                    } else if p.hidden {
                                        m.take(j as int).remove(bi as int)
                                    } else {
                                        m.take(j as int).update(
                                            bi as int,
                                            ExpressionView::Literal(value_v),
                                        )
                                    }),
                                decreases n - j,
                            {
                                proof {
                                    assert(m.take(j + 1) =~= m.take(j as int).push(m[j as int]));
                                    assert(m[j as int] == subst_expr(
                                        es[j as int],
                                        p.var_name,
                                        value_v,
                                    ));
                                    assert(values@.map_values(|s: String| s@)[k as int]
                                        == values@[k as int]@);
                                }
                                if j == bi {
                                    if !perm.hidden {
                                        child.push(Expression::Literal(values[k].clone()));
                                        proof {
                                            assert(m.take(j + 1).update(
                                                bi as int,
                                                ExpressionView::Literal(value_v),
                                            ) =~= m.take(j as int).push(
                                                ExpressionView::Literal(value_v),
                                            ));
                                        }
                                    } else {
                                        proof {
                                            assert(m.take(j + 1).remove(bi as int) =~= m.take(
                                                j as int,
                                            ));
                                        }
                                    }
                                } else {
                                    match &self.0[j] {
                                        Expression::Variable(vn) => {
                                            let matches_var = match &perm.var_name {
                                                Some(pv) => pv.0 == vn.0,
                                                None => false,
                                            };
                                            if matches_var {
                                                child.push(
                                                    Expression::Literal(values[k].clone()),
                                                );
                                            } else {
                                                child.push(Expression::Variable(vn.clone()));
                                            }
                                        },
                                        Expression::Literal(t) => {
                                            child.push(Expression::Literal(t.clone()));
                                        },
                                        Expression::Permutation(q) => {
                                            child.push(Expression::Permutation(q.clone()));
                                        },
                                    }
                                    proof {
                                        if j > bi {
                                            if p.hidden {
                                                assert(m.take(j + 1).remove(bi as int) =~= m.take(
                                                    j as int,
                                                ).remove(bi as int).push(m[j as int]));
                                            } else {
                                                assert(m.take(j + 1).update(
                                                    bi as int,
                                                    ExpressionView::Literal(value_v),
                                                ) =~= m.take(j as int).update(
                                                    bi as int,
                                                    ExpressionView::Literal(value_v),
                                                ).push(m[j as int]));
                                            }
                                        }
                                    }
                                }
                                j = j + 1;
                            }
                            let built = Statement(child);
                            let ghost prev = children@.map_values(|st: Statement| st@);
                            proof {
                                assert(m.take(n as int) =~= m);
                                assert(built@ =~= subst_stmt(es, bi as int, vals[k as int]));
                            }
                            children.push(built);
                            proof {
                                assert(children@.map_values(|st: Statement| st@) =~= prev.push(
                                    subst_stmt(es, bi as int, vals[k as int]),
                                ));
                                assert(children@.map_values(|st: Statement| st@) =~= Seq::new(
                                    (k + 1) as nat,
                                    |k2: int| subst_stmt(es, bi as int, vals[k2]),
                                ));
                            }
                            k = k + 1;
                        }
                        proof {
                            assert(children@.map_values(|st: Statement| st@) =~= Seq::new(
                                vals.len(),
                                |k2: int| subst_stmt(es, bi as int, vals[k2]),
                            ));
                        }
                        Ok(Expanded::Branch(children))
                    },
                    _ => {
                        proof {
                            assert(false);
                        }
                        Err(ExpansionError { message: String::new() })
                    },
                }
            },
        }
    }

    /// Expand to a fixed point with an explicit work list: depth-first, the
    /// chosen permutation outermost, identical output order to the recursive
    /// traversal, and any error anywhere aborting the whole call.
    #[verifier::rlimit(100)]
    #[verifier::spinoff_prover]
    pub fn fully_expand(self) -> (r: Result<Vec<String>, ExpansionError>)
        requires
            stmt_wf(self@),
        ensures
            r is Ok <==> full_expansion(self@) is Ok,
            r matches Ok(v) ==> full_expansion(self@) == Ok::<Seq<Seq<char>>, Seq<char>>(v@.map_values(|s: String| s@)),
            r matches Err(e) ==> full_expansion(self@) matches Err(m) && e@ == m,
    {
        let ghost root = self@;
        let mut results: Vec<String> = Vec::new();
        let mut stack: Vec<Statement> = Vec::new();
        stack.push(self);
        proof {
            let pending0 = stack@.map_values(|st: Statement| st@).reverse();
            assert(pending0 =~= seq![root]);
            assert(pending0.skip(1) =~= Seq::<Seq<ExpressionView>>::empty());
            reveal_with_fuel(combine_pending, 3);
            assert(results@.map_values(|s: String| s@) =~= Seq::<Seq<char>>::empty());
            match full_expansion(root) {
                Err(_) => {},
                Ok(outs) => {
                    assert(results@.map_values(|s: String| s@) + outs =~= outs);
                },
            }
            assert(combine_pending(
                results@.map_values(|s: String| s@),
                stack@.map_values(|st: Statement| st@).reverse(),
            ) == full_expansion(root));
        }
        #[verifier::loop_isolation(false)]
        while stack.len() > 0
            invariant
                combine_pending(
                    results@.map_values(|s: String| s@),
                    stack@.map_values(|st: Statement| st@).reverse(),
                ) == full_expansion(root),
                forall|t: int| 0 <= t < stack@.len() ==> #[trigger] stmt_wf(stack@[t]@),
            decreases pending_size(stack@.map_values(|st: Statement| st@).reverse()),
        {
            let ghost rs = results@.map_values(|s: String| s@);
            let ghost pending = stack@.map_values(|st: Statement| st@).reverse();
            let next = stack.pop().unwrap();
            let ghost rest = stack@.map_values(|st: Statement| st@).reverse();
            proof {
                assert(pending[0] == next@);
                assert(pending.skip(1) =~= rest);
                assert(pending_size(pending) == tree_size(next@) + pending_size(rest));
                assert(tree_size(next@) >= 1);
            }
            match next.expand() {
                Err(e) => {
                    proof {
                        assert(full_expansion(next@) == Err::<Seq<Seq<char>>, Seq<char>>(e@));
                    }
                    return Err(e);
                },
                Ok(Expanded::Resolved(s)) => {
                    proof {
                        assert(full_expansion(next@) == Ok::<Seq<Seq<char>>, Seq<char>>(
                            seq![s@],
                        ));
                        assert(combine_pending(rs, pending) == combine_pending(
                            rs + seq![s@],
                            rest,
                        ));
                        assert((results@.push(s)).map_values(|x: String| x@) =~= rs + seq![s@]);
                    }
                    results.push(s);
                },
                Ok(Expanded::Branch(mut kids)) => {
                    let ghost children = kids@.map_values(|st: Statement| st@);
                    let ghost m = children.len() as int;
                    proof {
                        let i = chosen_in(next@).unwrap();
                        let vals = iter_values(perm_of(next@[i]).iterable);
                        assert forall|k2: int| 0 <= k2 < children.len() implies count_perms(
                            #[trigger] children[k2],
                        ) < count_perms(next@) && stmt_wf(children[k2]) by {
                            lemma_chosen_in(next@);
                            lemma_subst_count(next@, i, vals[k2]);
                            lemma_subst_wf(next@, i, vals[k2]);
                        }
                        lemma_expand_list_eq(children, count_perms(next@));
                        assert(full_expansion(next@) == combine_pending(
                            Seq::<Seq<char>>::empty(),
                            children,
                        ));
                        lemma_combine_split(rs, children, rest);
                        lemma_combine_prefix(rs, children);
                        assert(combine_pending(rs, children + rest) == combine_pending(
                            rs,
                            pending,
                        ));
                        lemma_list_size_pending(children, count_perms(next@));
                        lemma_pending_split(children, rest);
                        assert(tree_size(next@) == 1 + list_size(children, count_perms(next@)));
                        assert(pending_size(children + rest) < pending_size(pending));
                    }
                    #[verifier::loop_isolation(false)]
                    while kids.len() > 0
                        invariant
                            kids@.len() <= children.len(),
                            kids@.map_values(|st: Statement| st@) =~= children.take(
                                kids@.len() as int,
                            ),
                            stack@.map_values(|st: Statement| st@).reverse() =~= children.skip(
                                kids@.len() as int,
                            ) + rest,
                            forall|t: int| 0 <= t < stack@.len() ==> #[trigger] stmt_wf(
                                stack@[t]@,
                            ),
                            forall|k2: int| 0 <= k2 < children.len() ==> stmt_wf(
                                #[trigger] children[k2],
                            ),
                        decreases kids@.len(),
                    {
                        let ghost ci = kids@.len() as int;
                        let ghost kids_before = kids@;
                        let c = kids.pop().unwrap();
                        proof {
                            assert(c == kids_before[ci - 1]);
                            assert(kids_before.map_values(|st: Statement| st@)[ci - 1] == c@);
                            assert(children.take(ci)[ci - 1] == children[ci - 1]);
                            assert(c@ == children[ci - 1]);
                            assert(kids@ =~= kids_before.take(ci - 1));
                            assert forall|j: int| 0 <= j < ci - 1 implies #[trigger] kids@[j]@
                                == children[j] by {
                                assert(kids@[j] == kids_before[j]);
                                assert(kids_before.map_values(|st: Statement| st@)[j]
                                    == kids_before[j]@);
                                assert(kids_before.map_values(|st: Statement| st@)[j]
                                    == children.take(ci)[j]);
                                assert(children.take(ci)[j] == children[j]);
                            }
                            assert(kids@.map_values(|st: Statement| st@) =~= children.take(
                                ci - 1,
                            ));
                        }
                        let ghost stack_before = stack@;
                        let ghost prevrev = stack_before.map_values(
                            |st: Statement| st@,
                        ).reverse();
                        stack.push(c);
                        proof {
                            let sv = stack@.map_values(|st: Statement| st@).reverse();
                            let tv = children.skip(ci - 1) + rest;
                            assert(prevrev =~= children.skip(ci) + rest);
                            assert(sv.len() == tv.len());
                            assert forall|j: int| 0 <= j < sv.len() implies #[trigger] sv[j]
                                == tv[j] by {
                                assert(sv[j] == stack@.map_values(|st: Statement| st@)[stack@.len()
                                    - 1 - j]);
                                assert(sv[j] == stack@[stack@.len() - 1 - j]@);
                                if j == 0 {
                                    assert(stack@[stack@.len() - 1] == c);
                                    assert(tv[0] == children[ci - 1]);
                                } else {
                                    assert(stack@[stack@.len() - 1 - j] == stack_before[
                                        stack_before.len() - j]);
                                    assert(prevrev[j - 1] == stack_before.map_values(
                                        |st: Statement| st@,
                                    )[stack_before.len() - j]);
                                    assert(prevrev[j - 1] == stack_before[stack_before.len() - j]@);
                                    assert(prevrev[j - 1] == (children.skip(ci) + rest)[j - 1]);
                                    if j - 1 < children.len() - ci {
                                        assert((children.skip(ci) + rest)[j - 1] == children[ci + j
                                            - 1]);
                                        assert(tv[j] == children[ci - 1 + j]);
                                    } else {
                                        assert((children.skip(ci) + rest)[j - 1] == rest[j - 1
                                            - (children.len() - ci)]);
                                        assert(tv[j] == rest[j - (children.len() - (ci - 1))]);
                                    }
                                }
                            }
                            assert(sv =~= tv);
                        }
                    }
                    proof {
                        assert(children.skip(0) =~= children);
                    }
                },
            }
        }
        proof {
            assert(stack@.map_values(|st: Statement| st@).reverse()
                =~= Seq::<Seq<ExpressionView>>::empty());
        }
        Ok(results)
    }
}


// ---------------------------------------------------------------------------
// The count law
// ---------------------------------------------------------------------------

/// How many values one node contributes: a permutation's value count, one
/// for anything else.
pub open spec fn value_factor(e: ExpressionView) -> nat {
    match e {
        ExpressionView::Permutation(p) => iter_values(p.iterable).len(),
        _ => 1nat,
    }
}

/// The product of the value counts of the permutations of a statement.
pub open spec fn count_product(es: Seq<ExpressionView>) -> nat
    decreases es.len(),
{
    if es.len() == 0 {
        1
    } else {
        value_factor(es[0]) * count_product(es.skip(1))
    }
}

proof fn lemma_product_pointwise(a: Seq<ExpressionView>, b: Seq<ExpressionView>)
    requires
        a.len() == b.len(),
        forall|j: int| 0 <= j < a.len() ==> value_factor(a[j]) == value_factor(#[trigger] b[j]),
    ensures
        count_product(a) == count_product(b),
    decreases a.len(),
{
    if a.len() > 0 {
        assert(forall|j: int| 0 <= j < a.skip(1).len() ==> a.skip(1)[j] == a[j + 1]);
        assert(forall|j: int| 0 <= j < b.skip(1).len() ==> b.skip(1)[j] == b[j + 1]);
        lemma_product_pointwise(a.skip(1), b.skip(1));
    }
}

proof fn lemma_no_vars_no_errs(es: Seq<ExpressionView>)
    requires
        forall|j: int| 0 <= j < es.len() ==> !((#[trigger] es[j]) is Variable),
    ensures
        error_list(es).len() == 0,
    decreases es.len(),
{
    if es.len() > 0 {
        assert(forall|j: int| 0 <= j < es.skip(1).len() ==> es.skip(1)[j] == es[j + 1]);
        lemma_no_vars_no_errs(es.skip(1));
    }
}

proof fn lemma_no_perms_product_one(es: Seq<ExpressionView>)
    requires
        forall|j: int| 0 <= j < es.len() ==> !is_perm(#[trigger] es[j]),
    ensures
        count_product(es) == 1,
    decreases es.len(),
{
    if es.len() > 0 {
        assert(forall|j: int| 0 <= j < es.skip(1).len() ==> es.skip(1)[j] == es[j + 1]);
        lemma_no_perms_product_one(es.skip(1));
    }
}

proof fn lemma_product_update(es: Seq<ExpressionView>, i: int, t: ExpressionView)
    requires
        0 <= i < es.len(),
        is_perm(es[i]),
        !is_perm(t),
    ensures
        count_product(es.update(i, t)) * iter_values(perm_of(es[i]).iterable).len()
            == count_product(es),
    decreases es.len(),
{
    let n = iter_values(perm_of(es[i]).iterable).len();
    if i == 0 {
        assert(es.update(0, t).skip(1) =~= es.skip(1));
        assert(count_product(es.update(0, t)) == count_product(es.skip(1)));
        assert(count_product(es.skip(1)) * n == n * count_product(es.skip(1)))
            by (nonlinear_arith);
    } else {
        assert(es.update(i, t).skip(1) =~= es.skip(1).update(i - 1, t));
        lemma_product_update(es.skip(1), i - 1, t);
        let h = value_factor(es[0]);
        assert(es.update(i, t)[0] == es[0]);
        assert((h * count_product(es.skip(1).update(i - 1, t))) * n == h * (count_product(
            es.skip(1).update(i - 1, t),
        ) * n)) by (nonlinear_arith);
    }
}

proof fn lemma_combine_all_len(rs: Seq<Seq<char>>, ps: Seq<Seq<ExpressionView>>, q: nat)
    requires
        forall|k: int|
            0 <= k < ps.len() ==> ((#[trigger] full_expansion(ps[k])) matches Ok(o) && o.len()
                == q),
    ensures
        combine_pending(rs, ps) matches Ok(o) && o.len() == rs.len() + ps.len() * q,
    decreases ps.len(),
{
    if ps.len() == 0 {
        assert(Seq::<Seq<ExpressionView>>::empty().len() * q == 0) by (nonlinear_arith);
    } else {
        assert(full_expansion(ps[0]) matches Ok(o) && o.len() == q);
        let outs = full_expansion(ps[0])->Ok_0;
        assert(forall|k: int|
            0 <= k < ps.skip(1).len() ==> ps.skip(1)[k] == ps[k + 1]);
        lemma_combine_all_len(rs + outs, ps.skip(1), q);
        assert((rs + outs).len() + ps.skip(1).len() * q == rs.len() + ps.len() * q)
            by (nonlinear_arith)
            requires
                (rs + outs).len() == rs.len() + q,
                ps.skip(1).len() == ps.len() - 1,
                ps.len() >= 1,
        ;
    }
}

/// Count law: a statement with no hidden permutation and no variable
/// reference always expands successfully, to exactly the product of its
/// permutations' value counts.
pub proof fn lemma_expansion_count(es: Seq<ExpressionView>)
    requires
        stmt_wf(es),
        forall|j: int| 0 <= j < es.len() ==> !((#[trigger] es[j]) is Variable),
        forall|j: int|
            0 <= j < es.len() ==> ((#[trigger] es[j]) is Permutation ==> !perm_of(es[j]).hidden),
    ensures
        full_expansion(es) matches Ok(outs) && outs.len() == count_product(es),
    decreases count_perms(es),
{
    lemma_chosen_in(es);
    match chosen_in(es) {
        None => {
            lemma_no_vars_no_errs(es);
            lemma_no_perms_product_one(es);
        },
        Some(i) => {
            assert(expr_wf(es[i]));
            let p = perm_of(es[i]);
            let vals = iter_values(p.iterable);
            let n = vals.len();
            lemma_iter_values_nonempty(p.iterable);
            let children = Seq::new(n, |k: int| subst_stmt(es, i, vals[k]));
            let child0 = es.update(i, ExpressionView::Literal(vals[0]));
            let q = count_product(child0);
            assert forall|k: int| 0 <= k < n implies ((#[trigger] full_expansion(children[k]))
                matches Ok(o) && o.len() == q) && count_perms(children[k]) < count_perms(es) by {
                let mk = es.map_values(|e: ExpressionView| subst_expr(e, p.var_name, vals[k]));
                assert(mk =~= es);
                let childk = es.update(i, ExpressionView::Literal(vals[k]));
                assert(children[k] =~= childk);
                lemma_subst_count(es, i, vals[k]);
                lemma_subst_wf(es, i, vals[k]);
                assert(childk =~= subst_stmt(es, i, vals[k]));
                assert(forall|j: int|
                    0 <= j < childk.len() ==> !((#[trigger] childk[j]) is Variable));
                assert(forall|j: int|
                    0 <= j < childk.len() ==> ((#[trigger] childk[j]) is Permutation ==> !perm_of(
                        childk[j],
                    ).hidden));
                lemma_expansion_count(childk);
                assert(forall|j: int|
                    0 <= j < childk.len() ==> value_factor(childk[j]) == value_factor(
                        #[trigger] child0[j],
                    ));
                lemma_product_pointwise(childk, child0);
            }
            assert forall|k: int| 0 <= k < children.len() implies count_perms(
                #[trigger] children[k],
            ) < count_perms(es) by {
                assert((full_expansion(children[k]) matches Ok(o) && o.len() == q)
                    && count_perms(children[k]) < count_perms(es));
            }
            lemma_expand_list_eq(children, count_perms(es));
            lemma_combine_all_len(Seq::empty(), children, q);
            lemma_product_update(es, i, ExpressionView::Literal(vals[0]));
            assert(Seq::<Seq<char>>::empty().len() + n * q == q * n) by (nonlinear_arith);
        },
    }
}

} // verus!

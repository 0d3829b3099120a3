//! The expression tree: literal text, variable references, and permutations
//! over a list of alternatives or an exact decimal range.  Every node carries
//! its canonical rendering, and a permutation can enumerate its values.

use vstd::prelude::*;

use crate::decimal::{
    dec_scaled, dec_to_text, dec_wf, render_decimal, scaled_i128, Decimal, DecimalView,
};
use crate::text::{dec_digit_limit, dec_digit_limit_exec, join_ch, lemma_pow10_adds,
    lemma_pow10_increases, lemma_pow10_pos, lemma_pow10_37, pow10, pow10_u128, udigits,
    udigits_string,
};

verus! {

// ---------------------------------------------------------------------------
// The tree and its mathematical view
// ---------------------------------------------------------------------------

/// A variable name; equality is by exact text.
pub struct VariableName(pub String);

impl View for VariableName {
    type V = Seq<char>;

    open spec fn view(&self) -> Seq<char> {
        self.0@
    }
}

impl Clone for VariableName {
    fn clone(&self) -> (r: Self)
        ensures
            r@ == self@,
    {
        VariableName(self.0.clone())
    }
}

impl VariableName {
    /// The name itself (a variable reference renders as `{name}`).
    pub fn to_text(&self) -> (r: String)
        ensures
            r@ == self@,
    {
        self.0.clone()
    }
}

/// What a permutation ranges over: explicit alternatives, or an arithmetic
/// progression of exact decimals.
pub enum PermutationIterable {
    Disjunction(Vec<String>),
    Range { start: Decimal, end: Decimal, step: Decimal },
}

pub enum IterableView {
    Disjunction(Seq<Seq<char>>),
    Range { start: DecimalView, end: DecimalView, step: DecimalView },
}

impl View for PermutationIterable {
    type V = IterableView;

    open spec fn view(&self) -> IterableView {
        match self {
            PermutationIterable::Disjunction(alts) => IterableView::Disjunction(
                alts@.map_values(|s: String| s@),
            ),
            PermutationIterable::Range { start, end, step } => IterableView::Range {
                start: start@,
                end: end@,
                step: step@,
            },
        }
    }
}

/// A permutation site: the iterable, an optional resolution priority, an
/// optional bound variable name, and whether the site itself emits no text.
pub struct Permutation {
    pub iterable: PermutationIterable,
    pub ordering: Option<u64>,
    pub var_name: Option<VariableName>,
    pub hidden: bool,
}

pub struct PermutationView {
    pub iterable: IterableView,
    pub ordering: Option<u64>,
    pub var_name: Option<Seq<char>>,
    pub hidden: bool,
}

impl View for Permutation {
    type V = PermutationView;

    open spec fn view(&self) -> PermutationView {
        PermutationView {
            iterable: self.iterable@,
            ordering: self.ordering,
            var_name: match self.var_name {
                Some(n) => Some(n@),
                None => None,
            },
            hidden: self.hidden,
        }
    }
}

/// One node of a statement.
pub enum Expression {
    Literal(String),
    Variable(VariableName),
    Permutation(Permutation),
}

pub enum ExpressionView {
    Literal(Seq<char>),
    Variable(Seq<char>),
    Permutation(PermutationView),
}

impl View for Expression {
    type V = ExpressionView;

    open spec fn view(&self) -> ExpressionView {
        match self {
            Expression::Literal(t) => ExpressionView::Literal(t@),
            Expression::Variable(n) => ExpressionView::Variable(n@),
            Expression::Permutation(p) => ExpressionView::Permutation(p@),
        }
    }
}

// ---------------------------------------------------------------------------
// Well-formedness
// ---------------------------------------------------------------------------

/// The parser guarantees every iterable is non-degenerate: a disjunction has
/// at least one alternative, and a range has well-formed bounds and a nonzero
/// step whose sign matches `end - start`.
pub open spec fn iter_wf(it: IterableView) -> bool {
    match it {
        IterableView::Disjunction(alts) => alts.len() >= 1,
        IterableView::Range { start, end, step } => {
            &&& dec_wf(start)
            &&& dec_wf(end)
            &&& dec_wf(step)
            &&& dec_scaled(step) != 0
            &&& (dec_scaled(step) > 0 <==> dec_scaled(start) <= dec_scaled(end))
        },
    }
}

pub open spec fn expr_wf(e: ExpressionView) -> bool {
    match e {
        ExpressionView::Permutation(p) => iter_wf(p.iterable),
        _ => true,
    }
}

pub open spec fn stmt_wf(es: Seq<ExpressionView>) -> bool {
    forall|i: int| 0 <= i < es.len() ==> #[trigger] expr_wf(es[i])
}

// ---------------------------------------------------------------------------
// Canonical rendering
// ---------------------------------------------------------------------------

pub open spec fn render_iter(it: IterableView) -> Seq<char> {
    match it {
        IterableView::Disjunction(alts) => join_ch(alts, '|'),
        IterableView::Range { start, end, step } => dec_to_text(start.mantissa, start.scale)
            + seq![';'] + dec_to_text(end.mantissa, end.scale) + seq![';'] + dec_to_text(
            step.mantissa,
            step.scale,
        ),
    }
}

pub open spec fn render_perm(p: PermutationView) -> Seq<char> {
    let ord = match p.ordering {
        Some(o) => udigits(o as int) + seq![':'],
        None => Seq::<char>::empty(),
    };
    let var = match p.var_name {
        Some(n) => n + seq![':'],
        None => Seq::<char>::empty(),
    };
    let bang = if p.hidden {
        seq!['!']
    } else {
        Seq::<char>::empty()
    };
    seq!['{'] + ord + var + render_iter(p.iterable) + seq!['}'] + bang
}

pub open spec fn render_expr(e: ExpressionView) -> Seq<char> {
    match e {
        ExpressionView::Literal(t) => t,
        ExpressionView::Variable(n) => seq!['{'] + n + seq!['}'],
        ExpressionView::Permutation(p) => render_perm(p),
    }
}

pub open spec fn render_stmt(es: Seq<ExpressionView>) -> Seq<char>
    decreases es.len(),
{
    if es.len() == 0 {
        Seq::empty()
    } else {
        render_expr(es[0]) + render_stmt(es.skip(1))
    }
}

/// Rendering distributes over appending one more expression.
pub proof fn lemma_render_stmt_push(es: Seq<ExpressionView>, e: ExpressionView)
    ensures
        render_stmt(es.push(e)) == render_stmt(es) + render_expr(e),
    decreases es.len(),
{
    if es.len() == 0 {
        reveal_with_fuel(render_stmt, 2);
        assert(es.push(e).skip(1) =~= Seq::<ExpressionView>::empty());
        assert(render_stmt(es.push(e)) =~= render_expr(e));
        assert(render_stmt(es) + render_expr(e) =~= render_expr(e));
    } else {
        lemma_render_stmt_push(es.skip(1), e);
        assert(es.push(e).skip(1) =~= es.skip(1).push(e));
        assert(render_stmt(es.push(e)) == render_expr(es[0]) + (render_stmt(es.skip(1))
            + render_expr(e)));
        assert(render_expr(es[0]) + (render_stmt(es.skip(1)) + render_expr(e)) =~= (render_expr(
            es[0],
        ) + render_stmt(es.skip(1))) + render_expr(e));
    }
}

// ---------------------------------------------------------------------------
// The values a permutation enumerates
// ---------------------------------------------------------------------------

pub open spec fn nmax(a: nat, b: nat) -> nat {
    if a >= b {
        a
    } else {
        b
    }
}

/// The scaled integer values of the progression: from `c`, stepping by `t`,
/// while the running value stays within the closed interval ending at `e`.
pub open spec fn range_script(c: int, e: int, t: int) -> Seq<int>
    decreases (if t > 0 {
        e - c + t
    } else {
        c - e - t
    }),
{
    if t > 0 && c <= e {
        seq![c] + range_script(c + t, e, t)
    } else if t < 0 && c >= e {
        seq![c] + range_script(c + t, e, t)
    } else {
        Seq::empty()
    }
}

/// The scale at which the `k`-th value of a range renders: the start keeps
/// its own scale, and every later value carries the wider of the start's and
/// the step's scales, exactly as exact decimal addition behaves.
pub open spec fn range_value_scale(start: DecimalView, step: DecimalView, k: int) -> nat {
    if k == 0 {
        start.scale
    } else {
        nmax(start.scale, step.scale)
    }
}

/// The rendered values of a range, in progression order.
pub open spec fn range_texts(start: DecimalView, end: DecimalView, step: DecimalView) -> Seq<
    Seq<char>,
> {
    let script = range_script(dec_scaled(start), dec_scaled(end), dec_scaled(step));
    Seq::new(
        script.len(),
        |k: int|
            {
                let sc = range_value_scale(start, step, k);
                dec_to_text(script[k] / pow10((dec_digit_limit() - sc) as nat), sc)
            },
    )
}

/// The ordered list of values a permutation iterable stands for.
pub open spec fn iter_values(it: IterableView) -> Seq<Seq<char>> {
    match it {
        IterableView::Disjunction(alts) => alts,
        IterableView::Range { start, end, step } => range_texts(start, end, step),
    }
}

/// A well-formed iterable always has at least one value.
pub proof fn lemma_iter_values_nonempty(it: IterableView)
    requires
        iter_wf(it),
    ensures
        iter_values(it).len() >= 1,
{
    match it {
        IterableView::Disjunction(_) => {},
        IterableView::Range { start, end, step } => {
            let s = dec_scaled(start);
            let e = dec_scaled(end);
            let t = dec_scaled(step);
            assert(range_script(s, e, t).len() >= 1);
        },
    }
}

impl Clone for PermutationIterable {
    fn clone(&self) -> (r: Self)
        ensures
            r@ == self@,
    {
        match self {
            PermutationIterable::Disjunction(alts) => {
                let mut out: Vec<String> = Vec::new();
                let mut i: usize = 0;
                #[verifier::loop_isolation(false)]
                while i < alts.len()
                    invariant
                        i <= alts.len(),
                        out@ =~= alts@.take(i as int),
                    decreases alts.len() - i,
                {
                    out.push(alts[i].clone());
                    i = i + 1;
                }
                proof {
                    assert(out@ =~= alts@);
                }
                PermutationIterable::Disjunction(out)
            },
            PermutationIterable::Range { start, end, step } => PermutationIterable::Range {
                start: *start,
                end: *end,
                step: *step,
            },
        }
    }
}

impl Clone for Permutation {
    fn clone(&self) -> (r: Self)
        ensures
            r@ == self@,
    {
        Permutation {
            iterable: self.iterable.clone(),
            ordering: self.ordering,
            var_name: match &self.var_name {
                Some(n) => Some(n.clone()),
                None => None,
            },
            hidden: self.hidden,
        }
    }
}

impl Clone for Expression {
    fn clone(&self) -> (r: Self)
        ensures
            r@ == self@,
    {
        match self {
            Expression::Literal(t) => Expression::Literal(t.clone()),
            Expression::Variable(n) => Expression::Variable(n.clone()),
            Expression::Permutation(p) => Expression::Permutation(p.clone()),
        }
    }
}

impl PermutationIterable {
    /// Canonical rendering: alternatives joined by `|`, or the three decimals
    /// of a range joined by `;`.
    pub fn to_text(&self) -> (r: String)
        requires
            iter_wf(self@),
        ensures
            r@ == render_iter(self@),
    {
        match self {
            PermutationIterable::Disjunction(alts) => {
                let ghost av = alts@.map_values(|s: String| s@);
                let mut r = alts[0].clone();
                proof {
                    reveal_strlit("|");
                    assert(r@ == join_ch(av.take(1), '|'));
                }
                let mut i: usize = 1;
                #[verifier::loop_isolation(false)]
                while i < alts.len()
                    invariant
                        1 <= i <= alts.len(),
                        r@ == join_ch(av.take(i as int), '|'),
                    decreases alts.len() - i,
                {
                    r.append("|");
                    r.append(alts[i].as_str());
                    proof {
                        crate::text::lemma_join_push(av.take(i as int), av[i as int], '|');
                        assert(av.take(i + 1) =~= av.take(i as int).push(av[i as int]));
                        assert(r@ =~= join_ch(av.take(i as int), '|') + seq!['|'] + av[i as int]);
                    }
                    i = i + 1;
                }
                proof {
                    assert(av.take(alts@.len() as int) =~= av);
                }
                r
            },
            PermutationIterable::Range { start, end, step } => {
                proof {
                    lemma_pow10_37();
                    lemma_pow10_increases(18, 37);
                    reveal_strlit(";");
                }
                let mut r = render_decimal(start.mantissa, start.scale);
                r.append(";");
                let e = render_decimal(end.mantissa, end.scale);
                r.append(e.as_str());
                r.append(";");
                let t = render_decimal(step.mantissa, step.scale);
                r.append(t.as_str());
                proof {
                    assert(r@ =~= render_iter(self@));
                }
                r
            },
        }
    }

    /// Materialize the full value list, in order.
    pub fn collect_vec(&self) -> (r: Vec<String>)
        requires
            iter_wf(self@),
        ensures
            r@.map_values(|s: String| s@) == iter_values(self@),
    {
        match self {
            PermutationIterable::Disjunction(alts) => {
                let mut out: Vec<String> = Vec::new();
                let mut i: usize = 0;
                #[verifier::loop_isolation(false)]
                while i < alts.len()
                    invariant
                        i <= alts.len(),
                        out@ =~= alts@.take(i as int),
                    decreases alts.len() - i,
                {
                    out.push(alts[i].clone());
                    i = i + 1;
                }
                proof {
                    assert(out@ =~= alts@);
                    assert(out@.map_values(|s: String| s@) =~= iter_values(self@));
                }
                out
            },
            PermutationIterable::Range { start, end, step } => range_values(start, end, step),
        }
    }
}

impl Permutation {
    /// Canonical rendering: `{`, the optional `ordering:`, the optional
    /// `name:`, the iterable, `}`, and a trailing `!` when hidden.
    pub fn to_text(&self) -> (r: String)
        requires
            iter_wf(self@.iterable),
        ensures
            r@ == render_perm(self@),
    {
        proof {
            reveal_strlit("{");
            reveal_strlit("}");
            reveal_strlit(":");
            reveal_strlit("!");
        }
        let mut r = String::new();
        r.append("{");
        match self.ordering {
            Some(o) => {
                let d = udigits_string(o as u128);
                r.append(d.as_str());
                r.append(":");
            },
            None => {},
        }
        match &self.var_name {
            Some(n) => {
                r.append(n.0.as_str());
                r.append(":");
            },
            None => {},
        }
        let it = self.iterable.to_text();
        r.append(it.as_str());
        r.append("}");
        if self.hidden {
            r.append("!");
        }
        proof {
            assert(r@ =~= render_perm(self@));
        }
        r
    }
}

impl Expression {
    /// Canonical rendering: a literal is its raw text, a variable reference
    /// is `{name}`, a permutation renders as `Permutation::to_text` does.
    pub fn to_text(&self) -> (r: String)
        requires
            expr_wf(self@),
        ensures
            r@ == render_expr(self@),
    {
        match self {
            Expression::Literal(t) => t.clone(),
            Expression::Variable(n) => {
                proof {
                    reveal_strlit("{");
                    reveal_strlit("}");
                }
                let mut r = String::new();
                r.append("{");
                r.append(n.0.as_str());
                r.append("}");
                proof {
                    assert(r@ =~= render_expr(self@));
                }
                r
            },
            Expression::Permutation(p) => p.to_text(),
        }
    }
}

/// Enumerate `start, start + step, ...` while the running value stays within
/// the closed interval, rendering each value exactly.
fn range_values(start: &Decimal, end: &Decimal, step: &Decimal) -> (r: Vec<String>)
    requires
        iter_wf(IterableView::Range { start: start@, end: end@, step: step@ }),
    ensures
        r@.map_values(|s: String| s@) == range_texts(start@, end@, step@),
{
    let ghost texts = range_texts(start@, end@, step@);
    let s18 = scaled_i128(start);
    let e18 = scaled_i128(end);
    let t18 = scaled_i128(step);
    let ghost script = range_script(s18 as int, e18 as int, t18 as int);
    proof {
        lemma_pow10_37();
        lemma_pow10_increases(18, 37);
        lemma_pow10_increases(36, 37);
    }

    // the shared scale of all values after the first
    let sc: u32 = if start.scale >= step.scale {
        start.scale
    } else {
        step.scale
    };
    let sp: u32 = dec_digit_limit_exec() - sc;
    let p = pow10_u128(sp);
    proof {
        lemma_pow10_pos(sp as nat);
    }

    // mantissa multipliers of start and step at the shared scale
    let ghost xs: int = start@.mantissa * pow10((sc - start.scale) as nat);
    let ghost xt: int = step@.mantissa * pow10((sc - step.scale) as nat);
    proof {
        lemma_pow10_adds((sc - start.scale) as nat, sp as nat);
        lemma_pow10_adds((sc - step.scale) as nat, sp as nat);
        assert(s18 as int == xs * (p as int)) by (nonlinear_arith)
            requires
                s18 as int == start@.mantissa * (pow10((sc - start.scale) as nat) * (p as int)),
                xs == start@.mantissa * pow10((sc - start.scale) as nat),
        ;
        assert(t18 as int == xt * (p as int)) by (nonlinear_arith)
            requires
                t18 as int == step@.mantissa * (pow10((sc - step.scale) as nat) * (p as int)),
                xt == step@.mantissa * pow10((sc - step.scale) as nat),
        ;
    }

    let mut out: Vec<String> = Vec::new();
    // the sign condition guarantees the start itself is always in range
    out.push(render_decimal(start.mantissa, start.scale));
    proof {
        assert(script[0] == s18 as int);
        assert(script.skip(1) =~= range_script(s18 as int + t18 as int, e18 as int, t18 as int));
        let sp0 = (dec_digit_limit() - start@.scale) as nat;
        lemma_pow10_pos(sp0);
        vstd::arithmetic::div_mod::lemma_div_multiples_vanish(
            start@.mantissa,
            pow10(sp0),
        );
        assert((pow10(sp0) * start@.mantissa) / pow10(sp0) == start@.mantissa);
        assert(pow10(sp0) * start@.mantissa == start@.mantissa * pow10(sp0)) by (nonlinear_arith);
        assert(out@.map_values(|s: String| s@) =~= texts.take(1));
    }

    let mut c: i128 = s18 + t18;
    let ghost k: int = 1;
    let ghost xc: int = xs + xt;
    proof {
        assert(c as int == xc * (p as int)) by (nonlinear_arith)
            requires
                c as int == xs * (p as int) + xt * (p as int),
                xc == xs + xt,
        ;
    }

    #[verifier::loop_isolation(false)]
    while (t18 > 0 && c <= e18) || (t18 < 0 && c >= e18)
        invariant
            out@.map_values(|s: String| s@) =~= texts.take(k),
            range_script(c as int, e18 as int, t18 as int) =~= script.skip(k),
            1 <= k <= script.len(),
            c as int == xc * (p as int),
            t18 as int == xt * (p as int),
            -2 * pow10(36) < (c as int) < 2 * pow10(36),
        decreases (if t18 > 0 {
            e18 - c + t18
        } else {
            c - e18 - t18
        }),
    {
        proof {
            assert(range_script(c as int, e18 as int, t18 as int)[0] == c as int);
            assert(script[k] == c as int);
            assert(k < script.len());
            vstd::arithmetic::div_mod::lemma_div_multiples_vanish(xc, p as int);
            assert((p as int) * xc == xc * (p as int)) by (nonlinear_arith);
            assert(((c as int) / (p as int)) == xc);
        }
        // render the current value at the shared scale
        let neg = c < 0;
        let a: u128 = if neg {
            (-c) as u128
        } else {
            c as u128
        };
        let q = a / p;
        let m: i128 = if neg {
            -(q as i128)
        } else {
            q as i128
        };
        proof {
            let ghost ca = c as int;
            if neg {
                assert(xc < 0) by (nonlinear_arith)
                    requires ca == xc * (p as int), ca < 0, p as int >= 1;
                vstd::arithmetic::div_mod::lemma_div_multiples_vanish(-xc, p as int);
                assert((p as int) * (-xc) == (a as int)) by (nonlinear_arith)
                    requires a as int == -ca, ca == xc * (p as int);
                assert(q as int == -xc);
                assert(m as int == xc);
            } else {
                assert(xc >= 0) by (nonlinear_arith)
                    requires ca == xc * (p as int), ca >= 0, p as int >= 1;
                vstd::arithmetic::div_mod::lemma_div_multiples_vanish(xc, p as int);
                assert((p as int) * xc == (a as int)) by (nonlinear_arith)
                    requires a as int == ca, ca == xc * (p as int);
                assert(q as int == xc);
                assert(m as int == xc);
            }
            assert(-2 * pow10(36) < (m as int) < 2 * pow10(36)) by (nonlinear_arith)
                requires
                    c as int == (m as int) * (p as int),
                    p as int >= 1,
                    -2 * pow10(36) < (c as int) < 2 * pow10(36),
            ;
            assert(2 * pow10(36) <= pow10(37));
        }
        out.push(render_decimal(m, sc));
        proof {
            assert(texts[k] == dec_to_text((script[k]) / pow10(sp as nat), sc as nat));
            assert(out@.map_values(|s: String| s@) =~= texts.take(k + 1));
            assert(script.skip(k + 1) =~= script.skip(k).skip(1));
            assert(script.skip(k).skip(1) =~= range_script(
                c as int + t18 as int,
                e18 as int,
                t18 as int,
            ));
        }
        c = c + t18;
        proof {
            k = k + 1;
            xc = xc + xt;
            assert(c as int == xc * (p as int)) by (nonlinear_arith)
                requires
                    c as int == (xc - xt) * (p as int) + xt * (p as int),
            ;
        }
    }
    proof {
        assert(range_script(c as int, e18 as int, t18 as int).len() == 0);
        assert(k == script.len());
        assert(out@.map_values(|s: String| s@) =~= texts);
    }
    out
}

} // verus!

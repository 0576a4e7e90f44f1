use vstd::prelude::*;

use crate::strutil::nat_str;

verus! {

/// Identifier of a node inside one fault tree: a dense index into the node
/// container.  The CNF variable of node `i` is `i + 1`.
pub type NodeId = usize;

/// The two DIMACS dialects the encoder can emit.
pub enum CNFFormat {
    MCC,
    MC21,
}

impl Clone for CNFFormat {
    fn clone(&self) -> (r: Self)
        ensures
            r == *self,
    {
        match self {
            CNFFormat::MCC => CNFFormat::MCC,
            CNFFormat::MC21 => CNFFormat::MC21,
        }
    }
}

/// A propositional logic formula over node identifiers.
pub enum Formula {
    Atom(NodeId),
    Not(Box<Formula>),
    And(Vec<Formula>),
    Or(Vec<Formula>),
    Xor(Vec<Formula>),
    Vot(i64, Vec<Formula>),
    Tru,
    Fls,
}

/// A literal of a CNF clause: the variable of node `id` is `id + 1`, negated
/// when `pos` is false.
pub open spec fn lit_int(pos: bool, id: NodeId) -> int {
    if pos {
        id + 1
    } else {
        -(id + 1)
    }
}

/// Interprets a formula as a single CNF literal, when it has that shape.
pub open spec fn fml_lit(f: Formula) -> Option<int> {
    match f {
        Formula::Atom(x) => Some(lit_int(true, x)),
        Formula::Not(b) => match *b {
            Formula::Atom(x) => Some(lit_int(false, x)),
            _ => None,
        },
        _ => None,
    }
}

/// Interprets a sequence of formulas as the literals of one clause.
pub open spec fn lits_of(args: Seq<Formula>) -> Option<Seq<int>>
    decreases args.len(),
{
    if args.len() == 0 {
        Some(Seq::empty())
    } else {
        match (fml_lit(args[0]), lits_of(args.drop_first())) {
            (Some(l), Some(rest)) => Some(seq![l] + rest),
            _ => None,
        }
    }
}

/// Interprets a formula as one CNF clause (a disjunction of literals).
pub open spec fn fml_clause(f: Formula) -> Option<Seq<int>> {
    match f {
        Formula::Or(args) => lits_of(args@),
        _ => None,
    }
}

/// Interprets a sequence of formulas as a sequence of CNF clauses.
pub open spec fn clauses_of(args: Seq<Formula>) -> Option<Seq<Seq<int>>>
    decreases args.len(),
{
    if args.len() == 0 {
        Some(Seq::empty())
    } else {
        match (fml_clause(args[0]), clauses_of(args.drop_first())) {
            (Some(c), Some(rest)) => Some(seq![c] + rest),
            _ => None,
        }
    }
}

/// Interprets a formula as a whole CNF: a conjunction of clauses.
pub open spec fn fml_cnf(f: Formula) -> Option<Seq<Seq<int>>> {
    match f {
        Formula::And(args) => clauses_of(args@),
        _ => None,
    }
}

/// Truth value of a formula under an assignment of the node variables.
/// Out-of-range atoms read as false.  Xor is odd parity of its arguments.
pub open spec fn fml_eval(f: Formula, a: Seq<bool>) -> bool
    decreases f, 0nat,
{
    match f {
        Formula::Atom(x) => x < a.len() && a[x as int],
        Formula::Not(b) => !fml_eval(*b, a),
        Formula::And(args) => forall|i: int|
            0 <= i < args@.len() ==> fml_eval(#[trigger] args@[i], a),
        Formula::Or(args) => exists|i: int|
            0 <= i < args@.len() && fml_eval(#[trigger] args@[i], a),
        Formula::Xor(args) => parity_upto(args@, a, args@.len()),
        Formula::Vot(k, args) => false,
        Formula::Tru => true,
        Formula::Fls => false,
    }
}

/// Odd parity of the truth values of the first `n` formulas of the sequence.
pub open spec fn parity_upto(args: Seq<Formula>, a: Seq<bool>, n: nat) -> bool
    decreases args, n,
{
    if n == 0 || n > args.len() {
        false
    } else {
        parity_upto(args, a, (n - 1) as nat) != fml_eval(args[n - 1], a)
    }
}

/// No Vot gate occurs anywhere in the formula.
pub open spec fn no_vot(f: Formula) -> bool
    decreases f,
{
    match f {
        Formula::Not(b) => no_vot(*b),
        Formula::And(args) => forall|i: int|
            0 <= i < args@.len() ==> no_vot(#[trigger] args@[i]),
        Formula::Or(args) => forall|i: int|
            0 <= i < args@.len() ==> no_vot(#[trigger] args@[i]),
        Formula::Xor(args) => forall|i: int|
            0 <= i < args@.len() ==> no_vot(#[trigger] args@[i]),
        Formula::Vot(k, args) => false,
        _ => true,
    }
}

/// Every exclusive-or subformula has zero or two arguments: the arities on
/// which its formula-level negation is sound.
pub open spec fn xors_binary(f: Formula) -> bool
    decreases f,
{
    match f {
        Formula::Not(b) => xors_binary(*b),
        Formula::And(args) => forall|i: int|
            0 <= i < args@.len() ==> xors_binary(#[trigger] args@[i]),
        Formula::Or(args) => forall|i: int|
            0 <= i < args@.len() ==> xors_binary(#[trigger] args@[i]),
        Formula::Xor(args) => (args@.len() == 2 || args@.len() == 0) && forall|i: int|
            0 <= i < args@.len() ==> xors_binary(#[trigger] args@[i]),
        _ => true,
    }
}

/// Copies a formula.
pub fn clone_formula(f: &Formula) -> (r: Formula)
    ensures
        forall|a: Seq<bool>| #[trigger] fml_eval(r, a) == fml_eval(*f, a),
        fml_lit(r) == fml_lit(*f),
        no_vot(*f) ==> no_vot(r),
        xors_binary(*f) ==> xors_binary(r),
    decreases *f,
{
    match f {
        Formula::Atom(x) => {
            let r = Formula::Atom(*x);
            proof {
                lemma_unfold_no_vot(r);
                lemma_unfold_no_vot(*f);
                lemma_unfold_xors(r);
                lemma_unfold_xors(*f);
                assert forall|a: Seq<bool>| #[trigger] fml_eval(r, a) == fml_eval(*f, a) by {
                    lemma_unfold_eval(r, a);
                    lemma_unfold_eval(*f, a);
                }
            }
            r
        },
        Formula::Tru => {
            let r = Formula::Tru;
            proof {
                lemma_unfold_no_vot(r);
                lemma_unfold_xors(r);
                assert forall|a: Seq<bool>| #[trigger] fml_eval(r, a) == fml_eval(*f, a) by {
                    lemma_unfold_eval(r, a);
                    lemma_unfold_eval(*f, a);
                }
            }
            r
        },
        Formula::Fls => {
            let r = Formula::Fls;
            proof {
                lemma_unfold_no_vot(r);
                lemma_unfold_xors(r);
                assert forall|a: Seq<bool>| #[trigger] fml_eval(r, a) == fml_eval(*f, a) by {
                    lemma_unfold_eval(r, a);
                    lemma_unfold_eval(*f, a);
                }
            }
            r
        },
        Formula::Not(b) => {
            let inner = clone_formula(b);
            let r = Formula::Not(Box::new(inner));
            proof {
                let bi = r->Not_0;
                lemma_unfold_no_vot(r);
                lemma_unfold_no_vot(*f);
                lemma_unfold_xors(r);
                lemma_unfold_xors(*f);
                assert forall|a: Seq<bool>| #[trigger] fml_eval(r, a) == fml_eval(*f, a) by {
                    lemma_unfold_eval(r, a);
                    lemma_unfold_eval(*f, a);
                    assert(fml_eval(*bi, a) == fml_eval(**b, a));
                }
            }
            r
        },
        Formula::And(args) => {
            let nv = clone_formula_vec(args);
            let r = Formula::And(nv);
            proof {
                lemma_clone_gate(*f, r, args@);
            }
            r
        },
        Formula::Or(args) => {
            let nv = clone_formula_vec(args);
            let r = Formula::Or(nv);
            proof {
                lemma_clone_gate(*f, r, args@);
            }
            r
        },
        Formula::Xor(args) => {
            let nv = clone_formula_vec(args);
            let r = Formula::Xor(nv);
            proof {
                lemma_clone_gate(*f, r, args@);
            }
            r
        },
        Formula::Vot(k, args) => {
            let nv = clone_formula_vec(args);
            let r = Formula::Vot(*k, nv);
            proof {
                lemma_unfold_no_vot(*f);
                lemma_unfold_xors(r);
                assert forall|a: Seq<bool>| #[trigger] fml_eval(r, a) == fml_eval(*f, a) by {
                    lemma_unfold_eval(r, a);
                    lemma_unfold_eval(*f, a);
                }
            }
            r
        },
    }
}

/// An element-wise copy of a conjunction, disjunction or parity gate keeps
/// its truth table and its shape predicates.
proof fn lemma_clone_gate(f: Formula, r: Formula, args: Seq<Formula>)
    requires
        (f is And && r is And) || (f is Or && r is Or) || (f is Xor && r is Xor),
        f is And ==> f->And_0@ == args && r->And_0@.len() == args.len(),
        f is Or ==> f->Or_0@ == args && r->Or_0@.len() == args.len(),
        f is Xor ==> f->Xor_0@ == args && r->Xor_0@.len() == args.len(),
        forall|i: int, a: Seq<bool>|
            0 <= i < args.len() ==> #[trigger] fml_eval(gate_args(r)[i], a) == fml_eval(
                args[i],
                a,
            ),
        forall|i: int| 0 <= i < args.len() ==> (no_vot(args[i]) ==> no_vot(
            #[trigger] gate_args(r)[i],
        )),
        forall|i: int| 0 <= i < args.len() ==> (xors_binary(args[i]) ==> xors_binary(
            #[trigger] gate_args(r)[i],
        )),
    ensures
        forall|a: Seq<bool>| #[trigger] fml_eval(r, a) == fml_eval(f, a),
        fml_lit(r) == fml_lit(f),
        no_vot(f) ==> no_vot(r),
        xors_binary(f) ==> xors_binary(r),
{
    let rv = gate_args(r);
    lemma_unfold_no_vot(f);
    lemma_unfold_no_vot(r);
    lemma_unfold_xors(f);
    lemma_unfold_xors(r);
    assert forall|a: Seq<bool>| #[trigger] fml_eval(r, a) == fml_eval(f, a) by {
        lemma_unfold_eval(f, a);
        lemma_unfold_eval(r, a);
        if f is And {
            if fml_eval(r, a) {
                assert forall|i: int| 0 <= i < args.len() implies fml_eval(
                    #[trigger] args[i],
                    a,
                ) by {
                    assert(fml_eval(rv[i], a));
                }
            }
            if fml_eval(f, a) {
                assert forall|i: int| 0 <= i < rv.len() implies fml_eval(
                    #[trigger] rv[i],
                    a,
                ) by {
                    assert(fml_eval(args[i], a));
                }
            }
        } else if f is Or {
            if fml_eval(r, a) {
                let w = choose|w: int| 0 <= w < rv.len() && fml_eval(#[trigger] rv[w], a);
                assert(fml_eval(args[w], a));
            }
            if fml_eval(f, a) {
                let w = choose|w: int| 0 <= w < args.len() && fml_eval(#[trigger] args[w], a);
                assert(fml_eval(rv[w], a));
            }
        } else {
            lemma_parity_congruent(rv, args, a, rv.len() as nat);
        }
    }
    if no_vot(f) {
        assert forall|i: int| 0 <= i < rv.len() implies no_vot(#[trigger] rv[i]) by {
            assert(no_vot(args[i]));
        }
    }
    if xors_binary(f) {
        assert forall|i: int| 0 <= i < rv.len() implies xors_binary(#[trigger] rv[i]) by {
            assert(xors_binary(args[i]));
        }
    }
}

/// The argument list of a conjunction, disjunction or parity gate.
pub open spec fn gate_args(f: Formula) -> Seq<Formula> {
    match f {
        Formula::And(v) => v@,
        Formula::Or(v) => v@,
        Formula::Xor(v) => v@,
        Formula::Vot(_, v) => v@,
        _ => Seq::empty(),
    }
}

/// Copies a list of formulas, keeping each element's truth table.
fn clone_formula_vec(args: &Vec<Formula>) -> (r: Vec<Formula>)
    ensures
        r@.len() == args@.len(),
        forall|i: int, a: Seq<bool>|
            0 <= i < args@.len() ==> #[trigger] fml_eval(r@[i], a) == fml_eval(args@[i], a),
        forall|i: int| 0 <= i < args@.len() ==> #[trigger] fml_lit(r@[i]) == fml_lit(args@[i]),
        forall|i: int|
            0 <= i < args@.len() ==> (no_vot(args@[i]) ==> no_vot(#[trigger] r@[i])),
        forall|i: int|
            0 <= i < args@.len() ==> (xors_binary(args@[i]) ==> xors_binary(#[trigger] r@[i])),
    decreases args@,
{
    let mut out: Vec<Formula> = Vec::new();
    let mut i: usize = 0;
    while i < args.len()
        invariant
            i <= args@.len(),
            out@.len() == i,
            forall|k: int, a: Seq<bool>|
                0 <= k < i ==> #[trigger] fml_eval(out@[k], a) == fml_eval(args@[k], a),
            forall|k: int| 0 <= k < i ==> #[trigger] fml_lit(out@[k]) == fml_lit(args@[k]),
            forall|k: int| 0 <= k < i ==> (no_vot(args@[k]) ==> no_vot(#[trigger] out@[k])),
            forall|k: int|
                0 <= k < i ==> (xors_binary(args@[k]) ==> xors_binary(#[trigger] out@[k])),
        decreases args@.len() - i,
    {
        let c = clone_formula(&args[i]);
        out.push(c);
        i = i + 1;
    }
    out
}

/// Two argument lists with the same truth tables have the same parity.
proof fn lemma_parity_congruent(xs: Seq<Formula>, ys: Seq<Formula>, a: Seq<bool>, n: nat)
    requires
        xs.len() == ys.len(),
        forall|i: int, b: Seq<bool>|
            0 <= i < ys.len() ==> #[trigger] fml_eval(xs[i], b) == fml_eval(ys[i], b),
    ensures
        parity_upto(xs, a, n) == parity_upto(ys, a, n),
    decreases n,
{
    if !(n == 0 || n > xs.len()) {
        lemma_parity_congruent(xs, ys, a, (n - 1) as nat);
        assert(fml_eval(xs[n - 1], a) == fml_eval(ys[n - 1], a));
        assert(parity_upto(xs, a, n) == (parity_upto(xs, a, (n - 1) as nat) != fml_eval(
            xs[n - 1],
            a,
        )));
        assert(parity_upto(ys, a, n) == (parity_upto(ys, a, (n - 1) as nat) != fml_eval(
            ys[n - 1],
            a,
        )));
    }
}

impl Formula {
    /// The negation of the formula, pushed inward: conjunction and
    /// disjunction swap, a literal flips, and an exclusive-or becomes the
    /// disjunction of all-true and all-false.  The last rewrite matches the
    /// parity reading only for two (or zero) arguments, so the truth-table
    /// guarantee holds under that arity; voting gates are not negated.
    pub fn negate(&self) -> (r: Formula)
        requires
            no_vot(*self),
        ensures
            fml_lit(*self) matches Some(l) ==> fml_lit(r) == Some(0 - l),
            no_vot(r),
            xors_binary(*self) ==> xors_binary(r),
            xors_binary(*self) ==> forall|a: Seq<bool>| #[trigger] fml_eval(r, a) == !fml_eval(
                *self,
                a,
            ),
        decreases *self,
    {
        match self {
            Formula::Atom(x) => {
                let r = Formula::Not(Box::new(Formula::Atom(*x)));
                proof {
                    let bi = r->Not_0;
                    lemma_unfold_no_vot(r);
                    lemma_unfold_no_vot(*bi);
                    lemma_unfold_xors(r);
                    lemma_unfold_xors(*bi);
                    assert(fml_lit(r) == Some(lit_int(false, *x)));
                    assert forall|a: Seq<bool>| #[trigger] fml_eval(r, a) == !fml_eval(
                        *self,
                        a,
                    ) by {
                        lemma_unfold_eval(r, a);
                        lemma_unfold_eval(*bi, a);
                        lemma_unfold_eval(*self, a);
                    }
                }
                r
            },
            Formula::Not(b) => {
                let r = clone_formula(b);
                proof {
                    lemma_unfold_no_vot(*self);
                    lemma_unfold_xors(*self);
                    assert forall|a: Seq<bool>| #[trigger] fml_eval(r, a) == !fml_eval(
                        *self,
                        a,
                    ) by {
                        lemma_unfold_eval(*self, a);
                        assert(fml_eval(r, a) == fml_eval(**b, a));
                    }
                }
                r
            },
            Formula::Fls => {
                let r = Formula::Tru;
                proof {
                    lemma_unfold_no_vot(r);
                    lemma_unfold_xors(r);
                    assert forall|a: Seq<bool>| #[trigger] fml_eval(r, a) == !fml_eval(
                        *self,
                        a,
                    ) by {
                        lemma_unfold_eval(r, a);
                        lemma_unfold_eval(*self, a);
                    }
                }
                r
            },
            Formula::Tru => {
                let r = Formula::Fls;
                proof {
                    lemma_unfold_no_vot(r);
                    lemma_unfold_xors(r);
                    assert forall|a: Seq<bool>| #[trigger] fml_eval(r, a) == !fml_eval(
                        *self,
                        a,
                    ) by {
                        lemma_unfold_eval(r, a);
                        lemma_unfold_eval(*self, a);
                    }
                }
                r
            },
            Formula::And(args) => {
                proof {
                    lemma_gate_shape_args(*self);
                }
                let nv = negate_vec(args);
                let r = Formula::Or(nv);
                proof {
                    lemma_unfold_no_vot(r);
                    lemma_unfold_xors(r);
                    lemma_unfold_xors(*self);
                    let rv0 = r->Or_0@;
                    assert forall|i: int| 0 <= i < rv0.len() implies no_vot(#[trigger] rv0[i]) by {
                        assert(no_vot(nv@[i]));
                    }
                    if xors_binary(*self) {
                        assert forall|i: int|
                            0 <= i < rv0.len() implies xors_binary(#[trigger] rv0[i]) by {
                            assert(xors_binary(args@[i]));
                            assert(xors_binary(nv@[i]));
                        }
                    }
                    if xors_binary(*self) {
                        let rv = r->Or_0@;
                        assert forall|a: Seq<bool>| #[trigger] fml_eval(r, a) == !fml_eval(
                            *self,
                            a,
                        ) by {
                            lemma_unfold_eval(r, a);
                            lemma_unfold_eval(*self, a);
                            if fml_eval(r, a) {
                                let w = choose|w: int|
                                    0 <= w < rv.len() && fml_eval(#[trigger] rv[w], a);
                                assert(xors_binary(args@[w]));
                                assert(!fml_eval(args@[w], a));
                            }
                            if !fml_eval(*self, a) {
                                let w = choose|w: int|
                                    0 <= w < args@.len() && !fml_eval(#[trigger] args@[w], a);
                                assert(xors_binary(args@[w]));
                                assert(fml_eval(rv[w], a));
                            }
                        }
                    }
                }
                r
            },
            Formula::Or(args) => {
                proof {
                    lemma_gate_shape_args(*self);
                }
                let nv = negate_vec(args);
                let r = Formula::And(nv);
                proof {
                    lemma_unfold_no_vot(r);
                    lemma_unfold_xors(r);
                    lemma_unfold_xors(*self);
                    let rv0 = r->And_0@;
                    assert forall|i: int| 0 <= i < rv0.len() implies no_vot(#[trigger] rv0[i]) by {
                        assert(no_vot(nv@[i]));
                    }
                    if xors_binary(*self) {
                        assert forall|i: int|
                            0 <= i < rv0.len() implies xors_binary(#[trigger] rv0[i]) by {
                            assert(xors_binary(args@[i]));
                            assert(xors_binary(nv@[i]));
                        }
                    }
                    if xors_binary(*self) {
                        let rv = r->And_0@;
                        assert forall|a: Seq<bool>| #[trigger] fml_eval(r, a) == !fml_eval(
                            *self,
                            a,
                        ) by {
                            lemma_unfold_eval(r, a);
                            lemma_unfold_eval(*self, a);
                            if fml_eval(*self, a) {
                                let w = choose|w: int|
                                    0 <= w < args@.len() && fml_eval(#[trigger] args@[w], a);
                                assert(xors_binary(args@[w]));
                                assert(!fml_eval(rv[w], a));
                            }
                            if !fml_eval(*self, a) {
                                assert forall|i: int| 0 <= i < rv.len() implies fml_eval(
                                    #[trigger] rv[i],
                                    a,
                                ) by {
                                    assert(!fml_eval(args@[i], a));
                                    assert(xors_binary(args@[i]));
                                }
                            }
                        }
                    }
                }
                r
            },
            Formula::Xor(args) => {
                proof {
                    lemma_gate_shape_args(*self);
                }
                let pos = Formula::And(clone_formula_vec(args));
                let negs = Formula::And(negate_vec(args));
                let mut both: Vec<Formula> = Vec::new();
                both.push(pos);
                both.push(negs);
                let r = Formula::Or(both);
                proof {
                    lemma_unfold_no_vot(r);
                    lemma_unfold_no_vot(r->Or_0@[0]);
                    lemma_unfold_no_vot(r->Or_0@[1]);
                    lemma_unfold_no_vot(*self);
                    lemma_unfold_xors(r);
                    lemma_unfold_xors(r->Or_0@[0]);
                    lemma_unfold_xors(r->Or_0@[1]);
                    lemma_unfold_xors(*self);
                    let pv = r->Or_0@[0]->And_0@;
                    let gv = r->Or_0@[1]->And_0@;
                    assert forall|i: int| 0 <= i < pv.len() implies no_vot(#[trigger] pv[i]) by {
                        assert(no_vot(args@[i]));
                    }
                    assert forall|i: int| 0 <= i < gv.len() implies no_vot(#[trigger] gv[i]) by {
                        assert(no_vot(args@[i]));
                    }
                    assert(no_vot(r)) by {
                        assert forall|i: int|
                            0 <= i < r->Or_0@.len() implies no_vot(#[trigger] r->Or_0@[i]) by {
                            if i == 0 {
                                assert(no_vot(r->Or_0@[0]));
                            } else {
                                assert(no_vot(r->Or_0@[1]));
                            }
                        }
                    }
                    if xors_binary(*self) {
                        assert forall|i: int|
                            0 <= i < pv.len() implies xors_binary(#[trigger] pv[i]) by {
                            assert(xors_binary(args@[i]));
                        }
                        assert forall|i: int|
                            0 <= i < gv.len() implies xors_binary(#[trigger] gv[i]) by {
                            assert(xors_binary(args@[i]));
                        }
                        assert(xors_binary(r)) by {
                            assert forall|i: int|
                                0 <= i < r->Or_0@.len() implies xors_binary(
                                #[trigger] r->Or_0@[i],
                            ) by {
                                if i == 0 {
                                    assert(xors_binary(r->Or_0@[0]));
                                } else {
                                    assert(xors_binary(r->Or_0@[1]));
                                }
                            }
                        }
                    }
                    if xors_binary(*self) {
                        assert forall|a: Seq<bool>| #[trigger] fml_eval(r, a) == !fml_eval(
                            *self,
                            a,
                        ) by {
                            assert forall|i: int, b: Seq<bool>|
                                0 <= i < args@.len() implies #[trigger] fml_eval(
                                r->Or_0@[1]->And_0@[i],
                                b,
                            ) == !fml_eval(args@[i], b) by {
                                assert(xors_binary(args@[i]));
                            }
                            lemma_xor_negation(*self, r, args@, a);
                        }
                    }
                }
                r
            },
            Formula::Vot(_, _) => {
                // voting gates are excluded by the caller's obligation
                proof {
                    lemma_unfold_no_vot(*self);
                    assert(false);
                }
                Formula::Fls
            },
        }
    }
}

/// Restates the truth value of each formula shape over its parts.
#[verifier::spinoff_prover]
#[verifier::rlimit(100)]
proof fn lemma_unfold_eval(f: Formula, a: Seq<bool>)
    ensures
        f is And ==> (fml_eval(f, a) == (forall|i: int|
            0 <= i < f->And_0@.len() ==> fml_eval(#[trigger] f->And_0@[i], a))),
        f is Or ==> (fml_eval(f, a) == (exists|i: int|
            0 <= i < f->Or_0@.len() && fml_eval(#[trigger] f->Or_0@[i], a))),
        f is Xor ==> (fml_eval(f, a) == parity_upto(f->Xor_0@, a, f->Xor_0@.len())),
        f is Not ==> (fml_eval(f, a) == !fml_eval(*f->Not_0, a)),
        f is Atom ==> (fml_eval(f, a) == (f->Atom_0 < a.len() && a[f->Atom_0 as int])),
        f is Tru ==> fml_eval(f, a),
        f is Fls ==> !fml_eval(f, a),
        f is Vot ==> !fml_eval(f, a),
{
    match f {
        Formula::And(v) => {
            assert(fml_eval(f, a) == (forall|i: int|
                0 <= i < v@.len() ==> fml_eval(#[trigger] v@[i], a)));
        },
        Formula::Or(v) => {
            assert(fml_eval(f, a) == (exists|i: int|
                0 <= i < v@.len() && fml_eval(#[trigger] v@[i], a)));
        },
        Formula::Xor(v) => {
            assert(fml_eval(f, a) == parity_upto(v@, a, v@.len()));
        },
        Formula::Not(b) => {
            assert(fml_eval(f, a) == !fml_eval(*b, a));
        },
        Formula::Atom(x) => {
            assert(fml_eval(f, a) == (x < a.len() && a[x as int]));
        },
        Formula::Tru => {
            assert(fml_eval(f, a));
        },
        Formula::Fls => {
            assert(!fml_eval(f, a));
        },
        Formula::Vot(_, _) => {
            assert(!fml_eval(f, a));
        },
    }
}

/// Restates the no-voting predicate of each formula shape over its parts.
#[verifier::spinoff_prover]
#[verifier::rlimit(100)]
proof fn lemma_unfold_no_vot(f: Formula)
    ensures
        f is And ==> (no_vot(f) == (forall|i: int|
            0 <= i < f->And_0@.len() ==> no_vot(#[trigger] f->And_0@[i]))),
        f is Or ==> (no_vot(f) == (forall|i: int|
            0 <= i < f->Or_0@.len() ==> no_vot(#[trigger] f->Or_0@[i]))),
        f is Xor ==> (no_vot(f) == (forall|i: int|
            0 <= i < f->Xor_0@.len() ==> no_vot(#[trigger] f->Xor_0@[i]))),
        f is Not ==> (no_vot(f) == no_vot(*f->Not_0)),
        f is Vot ==> !no_vot(f),
        f is Atom || f is Tru || f is Fls ==> no_vot(f),
{
    match f {
        Formula::And(v) => {
            assert(no_vot(f) == (forall|i: int|
                0 <= i < v@.len() ==> no_vot(#[trigger] v@[i])));
        },
        Formula::Or(v) => {
            assert(no_vot(f) == (forall|i: int|
                0 <= i < v@.len() ==> no_vot(#[trigger] v@[i])));
        },
        Formula::Xor(v) => {
            assert(no_vot(f) == (forall|i: int|
                0 <= i < v@.len() ==> no_vot(#[trigger] v@[i])));
        },
        Formula::Not(b) => {
            assert(no_vot(f) == no_vot(*b));
        },
        Formula::Vot(_, _) => {
            assert(!no_vot(f));
        },
        _ => {
            assert(no_vot(f));
        },
    }
}

/// Restates the binary-parity predicate of each shape over its parts.
#[verifier::spinoff_prover]
#[verifier::rlimit(100)]
proof fn lemma_unfold_xors(f: Formula)
    ensures
        f is And ==> (xors_binary(f) == (forall|i: int|
            0 <= i < f->And_0@.len() ==> xors_binary(#[trigger] f->And_0@[i]))),
        f is Or ==> (xors_binary(f) == (forall|i: int|
            0 <= i < f->Or_0@.len() ==> xors_binary(#[trigger] f->Or_0@[i]))),
        f is Xor ==> (xors_binary(f) == ((f->Xor_0@.len() == 2 || f->Xor_0@.len() == 0) && (
        forall|i: int| 0 <= i < f->Xor_0@.len() ==> xors_binary(#[trigger] f->Xor_0@[i])))),
        f is Not ==> (xors_binary(f) == xors_binary(*f->Not_0)),
        f is Vot || f is Atom || f is Tru || f is Fls ==> xors_binary(f),
{
    match f {
        Formula::And(v) => {
            assert(xors_binary(f) == (forall|i: int|
                0 <= i < v@.len() ==> xors_binary(#[trigger] v@[i])));
        },
        Formula::Or(v) => {
            assert(xors_binary(f) == (forall|i: int|
                0 <= i < v@.len() ==> xors_binary(#[trigger] v@[i])));
        },
        Formula::Xor(v) => {
            assert(xors_binary(f) == ((v@.len() == 2 || v@.len() == 0) && (forall|i: int|
                0 <= i < v@.len() ==> xors_binary(#[trigger] v@[i]))));
        },
        Formula::Not(b) => {
            assert(xors_binary(f) == xors_binary(*b));
        },
        _ => {
            assert(xors_binary(f));
        },
    }
}

/// Unfolds the shape predicates of a composite formula to its arguments.
proof fn lemma_gate_shape_args(f: Formula)
    requires
        no_vot(f),
        f is And || f is Or || f is Xor,
    ensures
        forall|i: int| 0 <= i < gate_args(f).len() ==> no_vot(#[trigger] gate_args(f)[i]),
        xors_binary(f) ==> forall|i: int|
            0 <= i < gate_args(f).len() ==> xors_binary(#[trigger] gate_args(f)[i]),
        f is Xor && xors_binary(f) ==> gate_args(f).len() == 2 || gate_args(f).len() == 0,
{
    lemma_unfold_no_vot(f);
    lemma_unfold_xors(f);
}

proof fn lemma_xor_negation(f: Formula, r: Formula, args: Seq<Formula>, a: Seq<bool>)
    requires
        f is Xor,
        f->Xor_0@ == args,
        args.len() == 2 || args.len() == 0,
        r is Or,
        r->Or_0@.len() == 2,
        r->Or_0@[0] is And,
        r->Or_0@[1] is And,
        r->Or_0@[0]->And_0@.len() == args.len(),
        r->Or_0@[1]->And_0@.len() == args.len(),
        forall|i: int, b: Seq<bool>|
            0 <= i < args.len() ==> #[trigger] fml_eval(r->Or_0@[0]->And_0@[i], b) == fml_eval(
                args[i],
                b,
            ),
        forall|i: int, b: Seq<bool>|
            0 <= i < args.len() ==> #[trigger] fml_eval(r->Or_0@[1]->And_0@[i], b) == !fml_eval(
                args[i],
                b,
            ),
    ensures
        fml_eval(r, a) == !fml_eval(f, a),
{
    let both = r->Or_0;
    let p = both@[0]->And_0;
    let ng = both@[1]->And_0;
    if args.len() == 0 {
        assert(fml_eval(both@[0], a)) by {
            assert(forall|i: int| 0 <= i < p@.len() ==> fml_eval(#[trigger] p@[i], a));
        }
        assert(fml_eval(r, a)) by {
            assert(0 <= 0 < both@.len() && fml_eval(both@[0], a));
        }
        assert(!parity_upto(args, a, 0));
        assert(!fml_eval(f, a));
    } else {
        let e0 = fml_eval(args[0], a);
        let e1 = fml_eval(args[1], a);
        assert(fml_eval(f, a) == (e0 != e1)) by {
            assert(parity_upto(args, a, 2) == (parity_upto(args, a, 1) != fml_eval(args[1], a)));
            assert(parity_upto(args, a, 1) == (parity_upto(args, a, 0) != fml_eval(args[0], a)));
        }
        assert(fml_eval(both@[0], a) == (e0 && e1)) by {
            if e0 && e1 {
                assert forall|i: int| 0 <= i < p@.len() implies fml_eval(#[trigger] p@[i], a) by {
                    assert(fml_eval(args[i], a));
                }
            }
            if fml_eval(both@[0], a) {
                assert(fml_eval(p@[0], a));
                assert(fml_eval(p@[1], a));
            }
        }
        assert(fml_eval(both@[1], a) == (!e0 && !e1)) by {
            if !e0 && !e1 {
                assert forall|i: int| 0 <= i < ng@.len() implies fml_eval(#[trigger] ng@[i], a) by {
                    assert(!fml_eval(args[i], a));
                }
            }
            if fml_eval(both@[1], a) {
                assert(fml_eval(ng@[0], a));
                assert(fml_eval(ng@[1], a));
            }
        }
        if fml_eval(both@[0], a) || fml_eval(both@[1], a) {
            assert(fml_eval(r, a)) by {
                if fml_eval(both@[0], a) {
                    assert(0 <= 0 < both@.len() && fml_eval(both@[0], a));
                } else {
                    assert(0 <= 1 < both@.len() && fml_eval(both@[1], a));
                }
            }
        }
        if fml_eval(r, a) {
            let w = choose|w: int| 0 <= w < both@.len() && fml_eval(#[trigger] both@[w], a);
            assert(w == 0 || w == 1);
        }
    }
}

/// Negates every formula of the list.
fn negate_vec(args: &Vec<Formula>) -> (r: Vec<Formula>)
    requires
        forall|i: int| 0 <= i < args@.len() ==> no_vot(#[trigger] args@[i]),
    ensures
        r@.len() == args@.len(),
        forall|i: int| 0 <= i < args@.len() ==> no_vot(#[trigger] r@[i]),
        forall|i: int|
            0 <= i < args@.len() ==> (xors_binary(args@[i]) ==> xors_binary(#[trigger] r@[i])),
        forall|i: int|
            0 <= i < args@.len() ==> (xors_binary(args@[i]) ==> forall|a: Seq<bool>|
                #[trigger] fml_eval(r@[i], a) == !fml_eval(args@[i], a)),
    decreases args@,
{
    let mut out: Vec<Formula> = Vec::new();
    let mut i: usize = 0;
    while i < args.len()
        invariant
            i <= args@.len(),
            out@.len() == i,
            forall|k: int| 0 <= k < args@.len() ==> no_vot(#[trigger] args@[k]),
            forall|k: int| 0 <= k < i ==> no_vot(#[trigger] out@[k]),
            forall|k: int|
                0 <= k < i ==> (xors_binary(args@[k]) ==> xors_binary(#[trigger] out@[k])),
            forall|k: int|
                0 <= k < i ==> (xors_binary(args@[k]) ==> forall|a: Seq<bool>|
                    #[trigger] fml_eval(out@[k], a) == !fml_eval(args@[k], a)),
        decreases args@.len() - i,
    {
        let n = args[i].negate();
        out.push(n);
        i = i + 1;
    }
    out
}

/// The decimal text of a signed threshold.
pub open spec fn sint_str(i: int) -> Seq<char> {
    if i < 0 {
        seq!['-'] + nat_str((-i) as nat)
    } else {
        nat_str(i as nat)
    }
}

/// The separator a voting gate prints between its rendered arguments.
pub open spec fn vot_sep(k: i64) -> Seq<char> {
    "VOT("@ + sint_str(k as int) + ") "@
}

/// The text of a formula: an atom prints its variable, a negation a leading
/// minus, and a composite formula its arguments between parentheses, joined
/// by its connective.
pub open spec fn to_text_spec(f: Formula) -> Seq<char>
    decreases f, 0nat,
{
    match f {
        Formula::Atom(x) => nat_str((x + 1) as nat),
        Formula::Not(b) => "-"@ + to_text_spec(*b),
        Formula::And(v) => "("@ + join_text(v@, " ∧ "@, v@.len() as nat) + ")"@,
        Formula::Or(v) => "("@ + join_text(v@, " V "@, v@.len() as nat) + ")"@,
        Formula::Xor(v) => "("@ + join_text(v@, " ⊕ "@, v@.len() as nat) + ")"@,
        Formula::Vot(k, v) => "("@ + join_text(v@, vot_sep(k), v@.len() as nat) + ")"@,
        Formula::Tru => "("@ + ")"@,
        Formula::Fls => "("@ + ")"@,
    }
}

/// The first `n` rendered arguments, joined by the separator.
pub open spec fn join_text(fs: Seq<Formula>, sep: Seq<char>, n: nat) -> Seq<char>
    decreases fs, n,
{
    if n == 0 || n > fs.len() {
        Seq::empty()
    } else if n == 1 {
        to_text_spec(fs[0])
    } else {
        join_text(fs, sep, (n - 1) as nat) + sep + to_text_spec(fs[n - 1])
    }
}

/// The declaration-style text of a formula: the operator word first, then
/// the rendered arguments separated by spaces; a voting gate prints its
/// threshold over its width.
pub open spec fn dft_spec(f: Formula) -> Seq<char>
    decreases f, 0nat,
{
    match f {
        Formula::Atom(x) => nat_str((x + 1) as nat),
        Formula::Not(b) => "-"@ + dft_spec(*b),
        Formula::And(v) => "and "@ + join_dft(v@, v@.len() as nat),
        Formula::Or(v) => "or "@ + join_dft(v@, v@.len() as nat),
        Formula::Xor(v) => "xor "@ + join_dft(v@, v@.len() as nat),
        Formula::Vot(k, v) => sint_str(k as int) + "of"@ + nat_str(v@.len() as nat) + " "@
            + join_dft(v@, v@.len() as nat),
        Formula::Tru => Seq::empty(),
        Formula::Fls => Seq::empty(),
    }
}

/// The first `n` declaration-style arguments, joined by spaces.
pub open spec fn join_dft(fs: Seq<Formula>, n: nat) -> Seq<char>
    decreases fs, n,
{
    if n == 0 || n > fs.len() {
        Seq::empty()
    } else if n == 1 {
        dft_spec(fs[0])
    } else {
        join_dft(fs, (n - 1) as nat) + " "@ + dft_spec(fs[n - 1])
    }
}

/// Appends the decimal text of a signed threshold.
fn push_i64(out: &mut Vec<char>, k: i64)
    ensures
        final(out)@ == old(out)@ + sint_str(k as int),
{
    let wide: i128 = k as i128;
    if wide < 0 {
        out.push('-');
        crate::strutil::push_u128(out, (-wide) as u128);
        proof {
            assert(old(out)@ + (seq!['-'] + nat_str((-wide) as nat)) =~= (old(out)@.push('-'))
                + nat_str((-wide) as nat));
        }
    } else {
        crate::strutil::push_u128(out, wide as u128);
    }
}

/// Appends the text of a formula.
fn push_text(f: &Formula, out: &mut Vec<char>)
    ensures
        final(out)@ == old(out)@ + to_text_spec(*f),
    decreases *f,
{
    match f {
        Formula::Atom(x) => {
            crate::strutil::push_u128(out, (*x as u128) + 1);
        },
        Formula::Not(b) => {
            crate::strutil::push_str_chars(out, "-");
            push_text(b, out);
            proof {
                assert(old(out)@ + "-"@ + to_text_spec(**b) =~= old(out)@ + ("-"@ + to_text_spec(
                    **b,
                )));
            }
        },
        Formula::And(v) => {
            let sep = crate::strutil::str_to_chars(" ∧ ");
            push_joined(v, &sep, out);
        },
        Formula::Or(v) => {
            let sep = crate::strutil::str_to_chars(" V ");
            push_joined(v, &sep, out);
        },
        Formula::Xor(v) => {
            let sep = crate::strutil::str_to_chars(" ⊕ ");
            push_joined(v, &sep, out);
        },
        Formula::Vot(k, v) => {
            let mut sep: Vec<char> = Vec::new();
            crate::strutil::push_str_chars(&mut sep, "VOT(");
            push_i64(&mut sep, *k);
            crate::strutil::push_str_chars(&mut sep, ") ");
            proof {
                assert(sep@ =~= vot_sep(*k));
            }
            push_joined(v, &sep, out);
        },
        Formula::Tru => {
            crate::strutil::push_str_chars(out, "(");
            crate::strutil::push_str_chars(out, ")");
            proof {
                assert(old(out)@ + "("@ + ")"@ =~= old(out)@ + ("("@ + ")"@));
            }
        },
        Formula::Fls => {
            crate::strutil::push_str_chars(out, "(");
            crate::strutil::push_str_chars(out, ")");
            proof {
                assert(old(out)@ + "("@ + ")"@ =~= old(out)@ + ("("@ + ")"@));
            }
        },
    }
}

/// Appends a parenthesized, separator-joined argument list.
fn push_joined(v: &Vec<Formula>, sep: &Vec<char>, out: &mut Vec<char>)
    ensures
        final(out)@ == old(out)@ + "("@ + join_text(v@, sep@, v@.len() as nat) + ")"@,
    decreases v@,
{
    crate::strutil::push_str_chars(out, "(");
    let ghost start = out@;
    let mut i: usize = 0;
    while i < v.len()
        invariant
            i <= v@.len(),
            out@ == start + join_text(v@, sep@, i as nat),
        decreases v@.len() - i,
    {
        if i > 0 {
            crate::strutil::push_all(out, sep);
        }
        push_text(&v[i], out);
        proof {
            if i == 0 {
                assert(join_text(v@, sep@, 1) == to_text_spec(v@[0]));
                assert(out@ =~= start + join_text(v@, sep@, 1));
            } else {
                assert(join_text(v@, sep@, (i + 1) as nat) == join_text(v@, sep@, i as nat)
                    + sep@ + to_text_spec(v@[i as int]));
                assert(out@ =~= start + join_text(v@, sep@, (i + 1) as nat));
            }
        }
        i = i + 1;
    }
    crate::strutil::push_str_chars(out, ")");
    proof {
        assert(out@ =~= old(out)@ + "("@ + join_text(v@, sep@, v@.len() as nat) + ")"@);
    }
}

/// Appends the declaration-style text of a formula.
fn push_dft(f: &Formula, out: &mut Vec<char>)
    ensures
        final(out)@ == old(out)@ + dft_spec(*f),
    decreases *f,
{
    match f {
        Formula::Atom(x) => {
            crate::strutil::push_u128(out, (*x as u128) + 1);
        },
        Formula::Not(b) => {
            crate::strutil::push_str_chars(out, "-");
            push_dft(b, out);
            proof {
                assert(old(out)@ + "-"@ + dft_spec(**b) =~= old(out)@ + ("-"@ + dft_spec(**b)));
            }
        },
        Formula::And(v) => {
            crate::strutil::push_str_chars(out, "and ");
            push_dft_args(v, out);
            proof {
                assert(old(out)@ + "and "@ + join_dft(v@, v@.len() as nat) =~= old(out)@ + ("and "@
                    + join_dft(v@, v@.len() as nat)));
            }
        },
        Formula::Or(v) => {
            crate::strutil::push_str_chars(out, "or ");
            push_dft_args(v, out);
            proof {
                assert(old(out)@ + "or "@ + join_dft(v@, v@.len() as nat) =~= old(out)@ + ("or "@
                    + join_dft(v@, v@.len() as nat)));
            }
        },
        Formula::Xor(v) => {
            crate::strutil::push_str_chars(out, "xor ");
            push_dft_args(v, out);
            proof {
                assert(old(out)@ + "xor "@ + join_dft(v@, v@.len() as nat) =~= old(out)@ + ("xor "@
                    + join_dft(v@, v@.len() as nat)));
            }
        },
        Formula::Vot(k, v) => {
            push_i64(out, *k);
            crate::strutil::push_str_chars(out, "of");
            crate::strutil::push_u128(out, v.len() as u128);
            crate::strutil::push_str_chars(out, " ");
            push_dft_args(v, out);
            proof {
                assert(out@ =~= old(out)@ + dft_spec(*f));
            }
        },
        Formula::Tru => {},
        Formula::Fls => {},
    }
}

/// Appends the space-joined declaration-style argument list.
fn push_dft_args(v: &Vec<Formula>, out: &mut Vec<char>)
    ensures
        final(out)@ == old(out)@ + join_dft(v@, v@.len() as nat),
    decreases v@,
{
    let ghost start = out@;
    let mut i: usize = 0;
    while i < v.len()
        invariant
            i <= v@.len(),
            out@ == start + join_dft(v@, i as nat),
        decreases v@.len() - i,
    {
        if i > 0 {
            crate::strutil::push_str_chars(out, " ");
        }
        push_dft(&v[i], out);
        proof {
            if i == 0 {
                assert(join_dft(v@, 1) == dft_spec(v@[0]));
                assert(out@ =~= start + join_dft(v@, 1));
            } else {
                assert(join_dft(v@, (i + 1) as nat) == join_dft(v@, i as nat) + " "@ + dft_spec(
                    v@[i as int],
                ));
                assert(out@ =~= start + join_dft(v@, (i + 1) as nat));
            }
        }
        i = i + 1;
    }
}

/// Appending a literal-shaped formula extends the clause's literals.
pub proof fn lemma_lits_of_push(s: Seq<Formula>, f: Formula)
    ensures
        lits_of(s.push(f)) == match (lits_of(s), fml_lit(f)) {
            (Some(l), Some(x)) => Some(l.push(x)),
            _ => None::<Seq<int>>,
        },
    decreases s.len(),
{
    if s.len() == 0 {
        assert(s.push(f).drop_first() =~= Seq::<Formula>::empty());
        assert(s.push(f)[0] == f);
        assert(lits_of(Seq::<Formula>::empty()) == Some(Seq::<int>::empty()));
        assert(s =~= Seq::<Formula>::empty());
        if fml_lit(f) is Some {
            assert(seq![fml_lit(f)->Some_0] + Seq::<int>::empty() =~= Seq::<int>::empty().push(
                fml_lit(f)->Some_0,
            ));
        }
    } else {
        lemma_lits_of_push(s.drop_first(), f);
        assert(s.push(f).drop_first() =~= s.drop_first().push(f));
        assert(s.push(f)[0] == s[0]);
        match (fml_lit(s[0]), lits_of(s.drop_first()), fml_lit(f)) {
            (Some(l0), Some(rest), Some(x)) => {
                assert(seq![l0] + rest.push(x) =~= (seq![l0] + rest).push(x));
            },
            _ => {},
        }
    }
}

/// Appending a clause-shaped formula extends the conjunction's clauses.
pub proof fn lemma_clauses_of_push(s: Seq<Formula>, f: Formula)
    ensures
        clauses_of(s.push(f)) == match (clauses_of(s), fml_clause(f)) {
            (Some(cs), Some(c)) => Some(cs.push(c)),
            _ => None::<Seq<Seq<int>>>,
        },
    decreases s.len(),
{
    if s.len() == 0 {
        assert(s.push(f).drop_first() =~= Seq::<Formula>::empty());
        assert(s.push(f)[0] == f);
        assert(clauses_of(Seq::<Formula>::empty()) == Some(Seq::<Seq<int>>::empty()));
        assert(s =~= Seq::<Formula>::empty());
        if fml_clause(f) is Some {
            assert(seq![fml_clause(f)->Some_0] + Seq::<Seq<int>>::empty()
                =~= Seq::<Seq<int>>::empty().push(fml_clause(f)->Some_0));
        }
    } else {
        lemma_clauses_of_push(s.drop_first(), f);
        assert(s.push(f).drop_first() =~= s.drop_first().push(f));
        assert(s.push(f)[0] == s[0]);
        match (fml_clause(s[0]), clauses_of(s.drop_first()), fml_clause(f)) {
            (Some(c0), Some(rest), Some(c)) => {
                assert(seq![c0] + rest.push(c) =~= (seq![c0] + rest).push(c));
            },
            _ => {},
        }
    }
}

/// A conjunction of clauses extended by further clauses.
pub proof fn lemma_clauses_of_concat(s: Seq<Formula>, t: Seq<Formula>)
    ensures
        clauses_of(s + t) == match (clauses_of(s), clauses_of(t)) {
            (Some(cs), Some(ct)) => Some(cs + ct),
            _ => None::<Seq<Seq<int>>>,
        },
    decreases t.len(),
{
    if t.len() == 0 {
        assert(s + t =~= s);
        if clauses_of(s) is Some {
            assert(clauses_of(s)->Some_0 + Seq::<Seq<int>>::empty() =~= clauses_of(s)->Some_0);
        }
    } else {
        lemma_clauses_of_concat(s.push(t[0]), t.drop_first());
        lemma_clauses_of_push(s, t[0]);
        assert(s.push(t[0]) + t.drop_first() =~= s + t);
        match (clauses_of(s), fml_clause(t[0]), clauses_of(t.drop_first())) {
            (Some(cs), Some(c0), Some(ct)) => {
                assert(clauses_of(t) == Some(seq![c0] + ct));
                assert(cs.push(c0) + ct =~= cs + (seq![c0] + ct));
            },
            _ => {
                if fml_clause(t[0]) is None {
                    assert(clauses_of(t) is None);
                } else if clauses_of(t.drop_first()) is None {
                    assert(clauses_of(t) is None);
                }
            },
        }
    }
}

/// A successful clause interpretation matches the formulas one for one.
pub proof fn lemma_clauses_of_index(s: Seq<Formula>, cs: Seq<Seq<int>>)
    requires
        clauses_of(s) == Some(cs),
    ensures
        cs.len() == s.len(),
        forall|i: int| 0 <= i < s.len() ==> fml_clause(#[trigger] s[i]) == Some(cs[i]),
    decreases s.len(),
{
    if s.len() > 0 {
        let rest = clauses_of(s.drop_first())->Some_0;
        lemma_clauses_of_index(s.drop_first(), rest);
        assert forall|i: int| 0 <= i < s.len() implies fml_clause(#[trigger] s[i]) == Some(
            cs[i],
        ) by {
            if i > 0 {
                assert(s.drop_first()[i - 1] == s[i]);
                assert(cs[i] == (seq![fml_clause(s[0])->Some_0] + rest)[i]);
            }
        }
    }
}

/// A successful literal interpretation matches the formulas one for one.
pub proof fn lemma_lits_of_index(s: Seq<Formula>, ls: Seq<int>)
    requires
        lits_of(s) == Some(ls),
    ensures
        ls.len() == s.len(),
        forall|i: int| 0 <= i < s.len() ==> fml_lit(#[trigger] s[i]) == Some(ls[i]),
    decreases s.len(),
{
    if s.len() > 0 {
        let rest = lits_of(s.drop_first())->Some_0;
        lemma_lits_of_index(s.drop_first(), rest);
        assert forall|i: int| 0 <= i < s.len() implies fml_lit(#[trigger] s[i]) == Some(ls[i]) by {
            if i > 0 {
                assert(s.drop_first()[i - 1] == s[i]);
                assert(ls[i] == (seq![fml_lit(s[0])->Some_0] + rest)[i]);
            }
        }
    }
}

/// The exec construction of a single literal formula.
pub fn lit_formula(pos: bool, id: NodeId) -> (r: Formula)
    ensures
        fml_lit(r) == Some(lit_int(pos, id)),
{
    if pos {
        Formula::Atom(id)
    } else {
        Formula::Not(Box::new(Formula::Atom(id)))
    }
}

impl Formula {
    /// Renders the formula, arguments parenthesized and joined by the
    /// connective.
    pub fn to_text(&self) -> (r: String)
        ensures
            r@ == to_text_spec(*self),
    {
        let mut out: Vec<char> = Vec::new();
        push_text(self, &mut out);
        crate::strutil::chars_to_string(&out)
    }

    /// Renders the formula as a declaration body: the operator word first,
    /// then the arguments.
    pub fn formula_to_dft(&self) -> (r: String)
        ensures
            r@ == dft_spec(*self),
    {
        let mut out: Vec<char> = Vec::new();
        push_dft(self, &mut out);
        crate::strutil::chars_to_string(&out)
    }

    /// Returns the number of clauses only for CNF formulas.
    pub fn num_clauses(&self) -> (r: Option<usize>)
        ensures
            r matches Some(n) <==> self is And,
            self matches Formula::And(cs) ==> r == Some(cs.len()),
    {
        match self {
            Formula::And(clauses) => Some(clauses.len()),
            _ => None,
        }
    }
}

} // verus!

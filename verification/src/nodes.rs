use vstd::prelude::*;

use crate::dec::{Dec, dec_wf, dec_num, p10, dec_add, dec_half, dec_mul};
use crate::formula::{
    Formula, NodeId, lit_int, fml_clause, fml_cnf, lits_of, clauses_of, lit_formula,
    lemma_lits_of_push, lemma_clauses_of_push,
};
use vstd::string::StringExecFns;

verus! {

/// How a basic event fails over time.
pub enum Distribution {
    /// Rate of the exponential law governing the time to failure.
    Continuous(Dec),
    /// A fixed probability of failure.
    Discrete(Dec),
}

/// How a failed component comes back.
pub enum RepairMode {
    /// The rate governing the repair time.
    Monitored(Dec),
    /// The test interval and the average repair time.
    PeriodicallyTested(Dec, Dec),
}

/// A stochastic leaf of the tree.
pub struct BasicEvent {
    pub dist: Distribution,
    pub repair_mode: Option<RepairMode>,
}

/// Every numeric field of the event stays in the supported range.
pub open spec fn be_wf(be: BasicEvent) -> bool {
    &&& match be.dist {
        Distribution::Continuous(l) => dec_wf(l) && dec_num(l) >= 0,
        Distribution::Discrete(p) => dec_wf(p) && crate::dec::dec_is_prob(p),
    }
    &&& match be.repair_mode {
        Some(RepairMode::Monitored(m)) => dec_wf(m) && dec_num(m) >= 0,
        Some(RepairMode::PeriodicallyTested(t, tr)) => dec_wf(t) && dec_num(t) >= 0 && dec_wf(tr)
            && dec_num(tr) >= 0,
        None => true,
    }
}

impl BasicEvent {
    /// An event that always fails.
    pub fn const_true() -> (r: Self)
        ensures
            r.dist matches Distribution::Discrete(p) && dec_num(p) == 1 && p.scale == 0,
            r.repair_mode is None,
            be_wf(r),
    {
        proof {
            vstd::arithmetic::power::lemma_pow0(10);
        }
        BasicEvent { dist: Distribution::Discrete(crate::dec::dec_one()), repair_mode: None }
    }

    /// An event that never fails.
    pub fn const_false() -> (r: Self)
        ensures
            r.dist matches Distribution::Discrete(p) && dec_num(p) == 0 && p.scale == 0,
            r.repair_mode is None,
            be_wf(r),
    {
        proof {
            vstd::arithmetic::power::lemma_pow0(10);
        }
        BasicEvent { dist: Distribution::Discrete(crate::dec::dec_zero()), repair_mode: None }
    }

    /// An event with a fixed failure probability.
    pub fn new_with_prob(prob: Dec) -> (r: Self)
        ensures
            r.dist == Distribution::Discrete(prob),
            r.repair_mode is None,
    {
        BasicEvent { dist: Distribution::Discrete(prob), repair_mode: None }
    }

    /// Attaches a repair mode to the event.
    pub fn with_repair_mode(&mut self, rm: RepairMode)
        ensures
            final(self).dist == old(self).dist,
            final(self).repair_mode == Some(rm),
    {
        self.repair_mode = Some(rm);
    }

    /// An event failing at a continuous rate.
    pub fn new_with_rate(rate: Dec) -> (r: Self)
        ensures
            r.dist == Distribution::Continuous(rate),
            r.repair_mode is None,
    {
        BasicEvent { dist: Distribution::Continuous(rate), repair_mode: None }
    }

    /// The probability of at least one failure by the timepoint.  A discrete
    /// probability is taken as it stands; the exponential law of a continuous
    /// rate needs real arithmetic, which the exact engine does not carry out.
    pub fn unreliability(&self, timepoint: &Dec) -> (r: Option<Dec>)
        ensures
            self.dist matches Distribution::Discrete(p) ==> r == Some(p),
            self.dist is Continuous ==> r is None,
    {
        match &self.dist {
            Distribution::Discrete(prob) => Some(prob.clone()),
            Distribution::Continuous(_) => None,
        }
    }

    /// The probability of being failed at the timepoint, repair considered.
    /// Exact for a discrete probability and for a periodically tested event,
    /// whose value is `rate * interval / 2 + rate * repair`.
    pub fn unavailability(&self, timepoint: &Dec) -> (r: Option<Dec>)
        requires
            be_wf(*self),
        ensures
            self.dist matches Distribution::Discrete(p) ==> r == Some(p),
            (self.dist is Continuous && self.repair_mode is None) ==> r is None,
            (self.dist is Continuous && self.repair_mode matches Some(
                RepairMode::Monitored(_),
            )) ==> r is None,
            unavail_pt_ok(*self, r),
            (self.dist is Continuous && self.repair_mode matches Some(
                RepairMode::PeriodicallyTested(_, _),
            )) ==> (r is None <==> !pt_fits(
                self.dist->Continuous_0,
                self.repair_mode->Some_0->PeriodicallyTested_0,
                self.repair_mode->Some_0->PeriodicallyTested_1,
            )),
    {
        match (&self.dist, &self.repair_mode) {
            (Distribution::Discrete(prob), _) => Some(prob.clone()),
            (Distribution::Continuous(_), None) => None,
            (Distribution::Continuous(_), Some(RepairMode::Monitored(_))) => None,
            (Distribution::Continuous(lambda), Some(RepairMode::PeriodicallyTested(t, tr))) => {
                pt_unavailability(lambda, t, tr)
            },
        }
    }
}

/// For a periodically tested continuous event, the returned unavailability,
/// when there is one, is exactly `rate * interval / 2 + rate * repair`.
pub open spec fn unavail_pt_ok(be: BasicEvent, r: Option<Dec>) -> bool {
    match (be.dist, be.repair_mode) {
        (Distribution::Continuous(l), Some(RepairMode::PeriodicallyTested(t, tr))) => r matches Some(v) ==> dec_wf(v) && pt_value_eq(l, t, tr, v),
        _ => true,
    }
}

/// The value `v` equals `l*t/2 + l*tr` as a rational identity over the
/// numerators and scales of the decimals involved.
pub open spec fn pt_value_eq(l: Dec, t: Dec, tr: Dec, v: Dec) -> bool {
    dec_num(v) * (2 * p10((l.scale + t.scale) as nat) * p10((l.scale + tr.scale) as nat)) == (
    dec_num(l) * dec_num(t) * p10((l.scale + tr.scale) as nat) + 2 * dec_num(l) * dec_num(tr)
        * p10((l.scale + t.scale) as nat)) * p10(v.scale as nat)
}

/// Whether the exact arithmetic of `l*t/2 + l*tr` stays within the
/// decimal engine's machine limits: each product's mantissa fits `u128`
/// and its scale the engine's cap, and the final sum fits too.
pub open spec fn pt_fits(l: Dec, t: Dec, tr: Dec) -> bool {
    &&& l.mant * t.mant <= u128::MAX
    &&& l.scale + t.scale <= crate::dec::MAX_SCALE
    &&& 5 * (l.mant * t.mant) <= u128::MAX
    &&& l.scale + t.scale + 1 <= crate::dec::MAX_SCALE
    &&& l.mant * tr.mant <= u128::MAX
    &&& l.scale + tr.scale <= crate::dec::MAX_SCALE
    &&& crate::dec::add_fits(
        Dec {
            neg: l.neg != t.neg,
            mant: (5 * (l.mant * t.mant)) as u128,
            scale: (l.scale + t.scale + 1) as u32,
        },
        Dec {
            neg: l.neg != tr.neg,
            mant: (l.mant * tr.mant) as u128,
            scale: (l.scale + tr.scale) as u32,
        },
    )
}

/// Unavailability of a periodically tested event: `l*t/2 + l*tr`, exactly.
fn pt_unavailability(l: &Dec, t: &Dec, tr: &Dec) -> (r: Option<Dec>)
    requires
        dec_wf(*l),
        dec_wf(*t),
        dec_wf(*tr),
    ensures
        r matches Some(v) ==> dec_wf(v) && pt_value_eq(*l, *t, *tr, v),
        r is None <==> !pt_fits(*l, *t, *tr),
{
    let m1 = match dec_mul(l, t) {
        Some(v) => v,
        None => {
            return None;
        },
    };
    let h = match dec_half(&m1) {
        Some(v) => v,
        None => {
            return None;
        },
    };
    let m2 = match dec_mul(l, tr) {
        Some(v) => v,
        None => {
            return None;
        },
    };
    let r = match dec_add(&h, &m2) {
        Some(v) => v,
        None => {
            return None;
        },
    };
    proof {
        lemma_pt_value(*l, *t, *tr, m1, h, m2, r);
    }
    Some(r)
}

proof fn lemma_pt_value(l: Dec, t: Dec, tr: Dec, m1: Dec, h: Dec, m2: Dec, r: Dec)
    requires
        m1.scale == l.scale + t.scale,
        dec_num(m1) == dec_num(l) * dec_num(t),
        h.scale == m1.scale + 1,
        dec_num(h) == 5 * dec_num(m1),
        m2.scale == l.scale + tr.scale,
        dec_num(m2) == dec_num(l) * dec_num(tr),
        r.scale == if h.scale >= m2.scale {
            h.scale
        } else {
            m2.scale
        },
        dec_num(r) == dec_num(h) * p10((r.scale - h.scale) as nat) + dec_num(m2) * p10(
            (r.scale - m2.scale) as nat,
        ),
    ensures
        pt_value_eq(l, t, tr, r),
{
    let a = p10((l.scale + t.scale) as nat);
    let b = p10((l.scale + tr.scale) as nat);
    let lt = dec_num(l) * dec_num(t);
    let lr = dec_num(l) * dec_num(tr);
    let ph = p10((r.scale - h.scale) as nat);
    let pm = p10((r.scale - m2.scale) as nat);
    // p10 products that rebuild p10(r.scale)
    crate::dec::lemma_p10_mul(1 + (l.scale + t.scale) as nat, (r.scale - h.scale) as nat);
    crate::dec::lemma_p10_mul((l.scale + tr.scale) as nat, (r.scale - m2.scale) as nat);
    crate::dec::lemma_p10_mul(1, (l.scale + t.scale) as nat);
    assert(p10(1) == 10) by {
        vstd::arithmetic::power::lemma_pow1(10);
    }
    assert(p10((h.scale) as nat) == 10 * a);
    assert(p10((h.scale) as nat) * ph == p10(r.scale as nat));
    assert(b * pm == p10(r.scale as nat));
    let pr = p10(r.scale as nat);
    assert(dec_num(r) * (2 * a * b) == 2 * a * b * (5 * lt * ph) + 2 * a * b * (lr * pm))
        by (nonlinear_arith)
        requires
            dec_num(r) == 5 * lt * ph + lr * pm,
    ;
    assert(2 * a * b * (5 * lt * ph) == lt * b * ((10 * a) * ph)) by (nonlinear_arith);
    assert(2 * a * b * (lr * pm) == 2 * lr * a * (b * pm)) by (nonlinear_arith);
    assert(lt * b * ((10 * a) * ph) == lt * b * pr);
    assert(2 * lr * a * (b * pm) == 2 * lr * a * pr);
    assert((lt * b + 2 * lr * a) * pr == lt * b * pr + 2 * lr * a * pr) by (nonlinear_arith);
    assert((lt * b + 2 * lr * a) * pr == (dec_num(l) * dec_num(t) * b + 2 * dec_num(l) * dec_num(
        tr,
    ) * a) * pr) by (nonlinear_arith)
        requires
            lt == dec_num(l) * dec_num(t),
            lr == dec_num(l) * dec_num(tr),
    ;
}

/// The kinds of nodes a fault tree holds.
pub enum Node {
    BasicEvent(String, BasicEvent),
    Not(NodeId),
    And(Vec<NodeId>),
    Or(Vec<NodeId>),
    Xor(Vec<NodeId>),
    Vot(i64, Vec<NodeId>),
    PlaceHolder(String, String, Vec<String>),
}

/// The identifiers a node refers to: empty for leaves and placeholders.
pub open spec fn node_children(n: Node) -> Seq<NodeId> {
    match n {
        Node::BasicEvent(_, _) => Seq::empty(),
        Node::Not(a) => seq![a],
        Node::And(v) => v@,
        Node::Or(v) => v@,
        Node::Xor(v) => v@,
        Node::Vot(_, v) => v@,
        Node::PlaceHolder(_, _, _) => Seq::empty(),
    }
}

/// Copies a vector of identifiers.
pub fn copy_ids(v: &Vec<NodeId>) -> (r: Vec<NodeId>)
    ensures
        r@ == v@,
{
    let mut r: Vec<NodeId> = Vec::new();
    let mut i: usize = 0;
    while i < v.len()
        invariant
            i <= v@.len(),
            r@ == v@.subrange(0, i as int),
        decreases v@.len() - i,
    {
        r.push(v[i]);
        proof {
            assert(v@.subrange(0, i as int).push(v@[i as int]) =~= v@.subrange(0, i + 1));
        }
        i = i + 1;
    }
    proof {
        assert(v@.subrange(0, v@.len() as int) =~= v@);
    }
    r
}

/// The Tseitin clauses of an AND gate `g` over children `cs`:
/// one binary clause per child and one long closing clause.
pub open spec fn and_clauses(g: NodeId, cs: Seq<NodeId>) -> Seq<Seq<int>> {
    Seq::new(cs.len(), |i: int| seq![lit_int(false, g), lit_int(true, cs[i])]).push(
        Seq::new(cs.len(), |i: int| lit_int(false, cs[i])).push(lit_int(true, g)),
    )
}

/// The Tseitin clauses of an OR gate.
pub open spec fn or_clauses(g: NodeId, cs: Seq<NodeId>) -> Seq<Seq<int>> {
    Seq::new(cs.len(), |i: int| seq![lit_int(true, g), lit_int(false, cs[i])]).push(
        Seq::new(cs.len(), |i: int| lit_int(true, cs[i])).push(lit_int(false, g)),
    )
}

/// The Tseitin clauses of a NOT gate.
pub open spec fn not_clauses(g: NodeId, c: NodeId) -> Seq<Seq<int>> {
    seq![
        seq![lit_int(true, g), lit_int(true, c)],
        seq![lit_int(false, g), lit_int(false, c)],
    ]
}

/// The Tseitin clauses of an XOR gate: one clause per child, in which that
/// child alone appears negated beside its gate variable, then two final
/// clauses over all children.
pub open spec fn xor_clauses(g: NodeId, cs: Seq<NodeId>) -> Seq<Seq<int>> {
    Seq::new(cs.len(), |i: int| Seq::new(cs.len(), |j: int| lit_int(j != i, cs[j])).push(
        lit_int(true, g),
    )).push(Seq::new(cs.len(), |j: int| lit_int(true, cs[j])).push(lit_int(false, g))).push(
        Seq::new(cs.len(), |j: int| lit_int(false, cs[j])).push(lit_int(false, g)),
    )
}

/// The Tseitin clauses a node contributes: none for a basic event.
pub open spec fn node_clauses(n: Node, id: NodeId) -> Seq<Seq<int>> {
    match n {
        Node::BasicEvent(_, _) => Seq::empty(),
        Node::Not(a) => not_clauses(id, a),
        Node::And(v) => and_clauses(id, v@),
        Node::Or(v) => or_clauses(id, v@),
        Node::Xor(v) => xor_clauses(id, v@),
        Node::Vot(_, v) => Seq::empty(),
        Node::PlaceHolder(_, _, _) => Seq::empty(),
    }
}

impl Node {
    /// Whether the node is an OR gate.
    pub fn is_or(&self) -> (r: bool)
        ensures
            r == (self is Or),
    {
        matches!(self, Node::Or(_))
    }

    /// Whether the node is a gate rather than a leaf or a placeholder.
    pub fn is_gate(&self) -> (r: bool)
        ensures
            r == !(self is BasicEvent || self is PlaceHolder),
    {
        match self {
            Node::PlaceHolder(_, _, _) => false,
            Node::BasicEvent(_, _) => false,
            Node::Not(_) => true,
            Node::And(_) => true,
            Node::Or(_) => true,
            Node::Xor(_) => true,
            Node::Vot(_, _) => true,
        }
    }

    /// The identifiers the node refers to.  Placeholders carry names, not
    /// identifiers, so they are excluded.
    pub fn children(&self) -> (r: Vec<NodeId>)
        requires
            !(self is PlaceHolder),
        ensures
            r@ == node_children(*self),
    {
        match self {
            Node::PlaceHolder(_, _, _) => {
                // excluded by the caller's obligation
                Vec::new()
            },
            Node::BasicEvent(_, _) => Vec::new(),
            Node::Not(arg) => {
                let mut v: Vec<NodeId> = Vec::new();
                v.push(*arg);
                proof {
                    assert(v@ =~= seq![*arg]);
                }
                v
            },
            Node::And(args) => copy_ids(args),
            Node::Or(args) => copy_ids(args),
            Node::Xor(args) => copy_ids(args),
            Node::Vot(_, args) => copy_ids(args),
        }
    }

    /// The unavailability of a basic-event node at the timepoint.
    pub fn unavailability(&self, timepoint: &Dec) -> (r: Option<Dec>)
        requires
            self matches Node::BasicEvent(_, be) ==> be_wf(*be),
        ensures
            !(self is BasicEvent) ==> r is None,
            self matches Node::BasicEvent(_, be) ==> (be.dist matches Distribution::Discrete(p)
                ==> r == Some(p)),
    {
        match self {
            Node::BasicEvent(_, be) => be.unavailability(timepoint),
            _ => None,
        }
    }

    /// The unreliability of a basic-event node at the timepoint.
    pub fn unreliability(&self, timepoint: &Dec) -> (r: Option<Dec>)
        ensures
            !(self is BasicEvent) ==> r is None,
            self matches Node::BasicEvent(_, be) ==> (be.dist matches Distribution::Discrete(p)
                ==> r == Some(p)),
            self matches Node::BasicEvent(_, be) ==> (be.dist is Continuous ==> r is None),
    {
        match self {
            Node::BasicEvent(_, be) => be.unreliability(timepoint),
            _ => None,
        }
    }

    /// A short label for the node's kind.
    pub fn gate_type(&self) -> (r: String)
        ensures
            self is BasicEvent ==> r@ == "basic event"@,
            self is Not ==> r@ == "not"@,
            self is And ==> r@ == "and"@,
            self is Or ==> r@ == "or"@,
            self is Vot ==> r@ == "vot"@,
            self is Xor ==> r@ == "xor"@,
            self is PlaceHolder ==> r@ == "placeholder"@,
    {
        match self {
            Node::BasicEvent(_, _) => String::from_str("basic event"),
            Node::Not(_) => String::from_str("not"),
            Node::And(_) => String::from_str("and"),
            Node::Or(_) => String::from_str("or"),
            Node::Vot(_, _) => String::from_str("vot"),
            Node::Xor(_) => String::from_str("xor"),
            Node::PlaceHolder(_, _, _) => String::from_str("placeholder"),
        }
    }

    /// Rewrites every child through the mapping, as subtree extraction needs.
    /// Basic events and placeholders stay as they are.
    pub fn map_to_args(&mut self, mapper: &Vec<Option<NodeId>>)
        requires
            forall|i: int|
                0 <= i < node_children(*old(self)).len() ==> node_children(*old(self))[i]
                    < mapper@.len() && mapper@[node_children(*old(self))[i] as int] is Some,
        ensures
            (*final(self)) is BasicEvent == (*old(self)) is BasicEvent,
            (*final(self)) is PlaceHolder == (*old(self)) is PlaceHolder,
            (*final(self)) is Not == (*old(self)) is Not,
            (*final(self)) is And == (*old(self)) is And,
            (*final(self)) is Or == (*old(self)) is Or,
            (*final(self)) is Xor == (*old(self)) is Xor,
            (*final(self)) is Vot == (*old(self)) is Vot,
            (*old(self)) is BasicEvent || (*old(self)) is PlaceHolder ==> *final(self) == *old(self),
            *old(self) matches Node::Vot(k, _) ==> *final(self) matches Node::Vot(k2, _) && k2 == k,
            node_children(*final(self)).len() == node_children(*old(self)).len(),
            forall|i: int|
                0 <= i < node_children(*old(self)).len() ==> node_children(*final(self))[i]
                    == mapper@[node_children(*old(self))[i] as int]->Some_0,
    {
        match self {
            Node::PlaceHolder(_, _, _) => {},
            Node::BasicEvent(_, _) => {},
            Node::Not(arg) => {
                let a: NodeId = *arg;
                proof {
                    assert(node_children(*old(self))[0] == a);
                }
                let m = mapper[a].unwrap();
                *self = Node::Not(m);
                proof {
                    assert(node_children(*self) =~= seq![m]);
                }
            },
            Node::And(args) => {
                let mapped = map_id_vec(args, mapper);
                *self = Node::And(mapped);
            },
            Node::Or(args) => {
                let mapped = map_id_vec(args, mapper);
                *self = Node::Or(mapped);
            },
            Node::Xor(args) => {
                let mapped = map_id_vec(args, mapper);
                *self = Node::Xor(mapped);
            },
            Node::Vot(k, args) => {
                let kk: i64 = *k;
                let mapped = map_id_vec(args, mapper);
                *self = Node::Vot(kk, mapped);
            },
        }
    }

    /// Applies the Tseitin rule of the node's kind; a basic event has no
    /// clauses and yields the true formula.  Placeholders and voting gates
    /// must have been resolved and expanded before encoding.
    pub fn tseitin_transformation(&self, self_id: NodeId) -> (r: Formula)
        requires
            !(self is PlaceHolder),
            !(self is Vot),
        ensures
            self is BasicEvent ==> r is Tru,
            !(self is BasicEvent) ==> fml_cnf(r) == Some(node_clauses(*self, self_id)),
    {
        match self {
            Node::PlaceHolder(_, _, _) => Formula::Tru,
            Node::Vot(_, _) => Formula::Tru,
            Node::BasicEvent(_, _) => Formula::Tru,
            Node::Not(arg) => self.tseitin_not(self_id, *arg),
            Node::And(args) => self.tseitin_and(self_id, args),
            Node::Or(args) => self.tseitin_or(self_id, args),
            Node::Xor(args) => self.tseitin_xor(self_id, args),
        }
    }

    /// The Tseitin rule for an AND gate.
    fn tseitin_and(&self, self_id: NodeId, args: &Vec<NodeId>) -> (r: Formula)
        ensures
            fml_cnf(r) == Some(and_clauses(self_id, args@)),
    {
        let mut clauses: Vec<Formula> = Vec::new();
        let mut i: usize = 0;
        while i < args.len()
            invariant
                i <= args@.len(),
                clauses_of(clauses@) == Some(
                    Seq::new(i as nat, |k: int| seq![
                        lit_int(false, self_id),
                        lit_int(true, args@[k]),
                    ]),
                ),
            decreases args@.len() - i,
        {
            let c = two_lit_clause(false, self_id, true, args[i]);
            proof {
                lemma_clauses_of_push(clauses@, c);
            }
            clauses.push(c);
            proof {
                assert(Seq::new(i as nat, |k: int| seq![
                    lit_int(false, self_id),
                    lit_int(true, args@[k]),
                ]).push(seq![lit_int(false, self_id), lit_int(true, args@[i as int])]) =~= Seq::new(
                    (i + 1) as nat,
                    |k: int| seq![lit_int(false, self_id), lit_int(true, args@[k])],
                ));
            }
            i = i + 1;
        }
        let last = long_clause(false, args, true, self_id);
        proof {
            lemma_clauses_of_push(clauses@, last);
        }
        clauses.push(last);
        proof {
            assert(and_clauses(self_id, args@) =~= Seq::new(
                args@.len(),
                |k: int| seq![lit_int(false, self_id), lit_int(true, args@[k])],
            ).push(Seq::new(args@.len(), |k: int| lit_int(false, args@[k])).push(lit_int(
                true,
                self_id,
            ))));
        }
        Formula::And(clauses)
    }

    /// The Tseitin rule for an OR gate.
    fn tseitin_or(&self, self_id: NodeId, args: &Vec<NodeId>) -> (r: Formula)
        ensures
            fml_cnf(r) == Some(or_clauses(self_id, args@)),
    {
        let mut clauses: Vec<Formula> = Vec::new();
        let mut i: usize = 0;
        while i < args.len()
            invariant
                i <= args@.len(),
                clauses_of(clauses@) == Some(
                    Seq::new(i as nat, |k: int| seq![
                        lit_int(true, self_id),
                        lit_int(false, args@[k]),
                    ]),
                ),
            decreases args@.len() - i,
        {
            let c = two_lit_clause(true, self_id, false, args[i]);
            proof {
                lemma_clauses_of_push(clauses@, c);
            }
            clauses.push(c);
            proof {
                assert(Seq::new(i as nat, |k: int| seq![
                    lit_int(true, self_id),
                    lit_int(false, args@[k]),
                ]).push(seq![lit_int(true, self_id), lit_int(false, args@[i as int])]) =~= Seq::new(
                    (i + 1) as nat,
                    |k: int| seq![lit_int(true, self_id), lit_int(false, args@[k])],
                ));
            }
            i = i + 1;
        }
        let last = long_clause(true, args, false, self_id);
        proof {
            lemma_clauses_of_push(clauses@, last);
        }
        clauses.push(last);
        proof {
            assert(or_clauses(self_id, args@) =~= Seq::new(
                args@.len(),
                |k: int| seq![lit_int(true, self_id), lit_int(false, args@[k])],
            ).push(Seq::new(args@.len(), |k: int| lit_int(true, args@[k])).push(lit_int(
                false,
                self_id,
            ))));
        }
        Formula::And(clauses)
    }

    /// The Tseitin rule for a NOT gate.
    fn tseitin_not(&self, self_id: NodeId, arg: NodeId) -> (r: Formula)
        ensures
            fml_cnf(r) == Some(not_clauses(self_id, arg)),
    {
        let c1 = two_lit_clause(true, self_id, true, arg);
        let c2 = two_lit_clause(false, self_id, false, arg);
        let mut clauses: Vec<Formula> = Vec::new();
        proof {
            lemma_clauses_of_push(clauses@, c1);
        }
        clauses.push(c1);
        proof {
            lemma_clauses_of_push(clauses@, c2);
        }
        clauses.push(c2);
        proof {
            assert(clauses_of(clauses@) == Some(not_clauses(self_id, arg))) by {
                assert(Seq::<Seq<int>>::empty().push(seq![
                    lit_int(true, self_id),
                    lit_int(true, arg),
                ]).push(seq![lit_int(false, self_id), lit_int(false, arg)]) =~= not_clauses(
                    self_id,
                    arg,
                ));
            }
        }
        Formula::And(clauses)
    }

    /// The Tseitin rule for an XOR gate.
    fn tseitin_xor(&self, self_id: NodeId, args: &Vec<NodeId>) -> (r: Formula)
        ensures
            fml_cnf(r) == Some(xor_clauses(self_id, args@)),
    {
        let mut clauses: Vec<Formula> = Vec::new();
        let mut i: usize = 0;
        while i < args.len()
            invariant
                i <= args@.len(),
                clauses_of(clauses@) == Some(
                    Seq::new(i as nat, |k: int| Seq::new(args@.len(), |j: int| lit_int(
                        j != k,
                        args@[j],
                    )).push(lit_int(true, self_id))),
                ),
            decreases args@.len() - i,
        {
            let c = xor_row_clause(args, i, self_id);
            proof {
                lemma_clauses_of_push(clauses@, c);
            }
            clauses.push(c);
            proof {
                assert(Seq::new(i as nat, |k: int| Seq::new(args@.len(), |j: int| lit_int(
                    j != k,
                    args@[j],
                )).push(lit_int(true, self_id))).push(Seq::new(args@.len(), |j: int| lit_int(
                    j != i,
                    args@[j],
                )).push(lit_int(true, self_id))) =~~= Seq::new((i + 1) as nat, |k: int| Seq::new(
                    args@.len(),
                    |j: int| lit_int(j != k, args@[j]),
                ).push(lit_int(true, self_id))));
            }
            i = i + 1;
        }
        let g_neg = long_clause(true, args, false, self_id);
        proof {
            lemma_clauses_of_push(clauses@, g_neg);
        }
        clauses.push(g_neg);
        let all_neg = long_clause(false, args, false, self_id);
        proof {
            lemma_clauses_of_push(clauses@, all_neg);
        }
        clauses.push(all_neg);
        proof {
            assert(clauses_of(clauses@) == Some(xor_clauses(self_id, args@))) by {
                assert(Seq::new(args@.len(), |k: int| Seq::new(args@.len(), |j: int| lit_int(
                    j != k,
                    args@[j],
                )).push(lit_int(true, self_id))).push(Seq::new(args@.len(), |j: int| lit_int(
                    true,
                    args@[j],
                )).push(lit_int(false, self_id))).push(Seq::new(args@.len(), |j: int| lit_int(
                    false,
                    args@[j],
                )).push(lit_int(false, self_id))) =~~= xor_clauses(self_id, args@));
            }
        }
        Formula::And(clauses)
    }
}

/// A clause of exactly two literals.
fn two_lit_clause(p1: bool, id1: NodeId, p2: bool, id2: NodeId) -> (r: Formula)
    ensures
        fml_clause(r) == Some(seq![lit_int(p1, id1), lit_int(p2, id2)]),
{
    let l1 = lit_formula(p1, id1);
    let l2 = lit_formula(p2, id2);
    let mut v: Vec<Formula> = Vec::new();
    proof {
        lemma_lits_of_push(v@, l1);
    }
    v.push(l1);
    proof {
        lemma_lits_of_push(v@, l2);
    }
    v.push(l2);
    proof {
        assert(Seq::<int>::empty().push(lit_int(p1, id1)).push(lit_int(p2, id2)) =~= seq![
            lit_int(p1, id1),
            lit_int(p2, id2),
        ]);
    }
    Formula::Or(v)
}

/// A clause that lists every child at one polarity and, last, its gate
/// literal.
fn long_clause(child_pos: bool, args: &Vec<NodeId>, gate_pos: bool, gate: NodeId) -> (r: Formula)
    ensures
        fml_clause(r) == Some(
            Seq::new(args@.len(), |j: int| lit_int(child_pos, args@[j])).push(lit_int(
                gate_pos,
                gate,
            )),
        ),
{
    let mut v: Vec<Formula> = Vec::new();
    let mut i: usize = 0;
    while i < args.len()
        invariant
            i <= args@.len(),
            lits_of(v@) == Some(Seq::new(i as nat, |j: int| lit_int(child_pos, args@[j]))),
        decreases args@.len() - i,
    {
        let l = lit_formula(child_pos, args[i]);
        proof {
            lemma_lits_of_push(v@, l);
        }
        v.push(l);
        proof {
            assert(Seq::new(i as nat, |j: int| lit_int(child_pos, args@[j])).push(lit_int(
                child_pos,
                args@[i as int],
            )) =~= Seq::new((i + 1) as nat, |j: int| lit_int(child_pos, args@[j])));
        }
        i = i + 1;
    }
    let g = lit_formula(gate_pos, gate);
    proof {
        lemma_lits_of_push(v@, g);
    }
    v.push(g);
    Formula::Or(v)
}

/// The XOR row clause: every child affirmed but the one at `neg_at`, with
/// its gate variable affirmed at the end.
fn xor_row_clause(args: &Vec<NodeId>, neg_at: usize, gate: NodeId) -> (r: Formula)
    requires
        neg_at < args@.len(),
    ensures
        fml_clause(r) == Some(
            Seq::new(args@.len(), |j: int| lit_int(j != neg_at, args@[j])).push(lit_int(
                true,
                gate,
            )),
        ),
{
    let mut v: Vec<Formula> = Vec::new();
    let mut i: usize = 0;
    while i < args.len()
        invariant
            i <= args@.len(),
            neg_at < args@.len(),
            lits_of(v@) == Some(Seq::new(i as nat, |j: int| lit_int(j != neg_at, args@[j]))),
        decreases args@.len() - i,
    {
        let l = lit_formula(i != neg_at, args[i]);
        proof {
            lemma_lits_of_push(v@, l);
        }
        v.push(l);
        proof {
            assert(Seq::new(i as nat, |j: int| lit_int(j != neg_at, args@[j])).push(lit_int(
                i != neg_at,
                args@[i as int],
            )) =~= Seq::new((i + 1) as nat, |j: int| lit_int(j != neg_at, args@[j])));
        }
        i = i + 1;
    }
    let g = lit_formula(true, gate);
    proof {
        lemma_lits_of_push(v@, g);
    }
    v.push(g);
    Formula::Or(v)
}

/// Maps every identifier of the vector through the mapping.
fn map_id_vec(args: &Vec<NodeId>, mapper: &Vec<Option<NodeId>>) -> (r: Vec<NodeId>)
    requires
        forall|i: int|
            0 <= i < args@.len() ==> args@[i] < mapper@.len() && mapper@[args@[i] as int] is Some,
    ensures
        r@.len() == args@.len(),
        forall|i: int| 0 <= i < args@.len() ==> r@[i] == mapper@[args@[i] as int]->Some_0,
{
    let mut r: Vec<NodeId> = Vec::new();
    let mut i: usize = 0;
    while i < args.len()
        invariant
            i <= args@.len(),
            r@.len() == i,
            forall|k: int|
                0 <= k < args@.len() ==> args@[k] < mapper@.len() && mapper@[args@[k] as int]
                    is Some,
            forall|k: int| 0 <= k < i ==> r@[k] == mapper@[args@[k] as int]->Some_0,
        decreases args@.len() - i,
    {
        let m = mapper[args[i]].unwrap();
        r.push(m);
        i = i + 1;
    }
    r
}

} // verus!

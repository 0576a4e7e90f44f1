use vstd::prelude::*;

use crate::fault_tree::{FaultTree, ft_wf, ft_cnf, gates_cnf, unit_clause};
use crate::formula::{NodeId, lit_int};
use crate::nodes::{Node, node_children, node_clauses, and_clauses, or_clauses, not_clauses,
    xor_clauses};

verus! {

/// The truth value an assignment gives a node's variable; out-of-range
/// variables read as false.
pub open spec fn a_at(a: Seq<bool>, id: NodeId) -> bool {
    id < a.len() && a[id as int]
}

/// Whether a literal holds under the assignment.
pub open spec fn lit_holds(a: Seq<bool>, l: int) -> bool {
    if l > 0 {
        0 <= l - 1 < a.len() && a[l - 1]
    } else {
        !(0 <= -l - 1 < a.len() && a[-l - 1])
    }
}

/// Whether a clause holds: some literal of it holds.
pub open spec fn clause_holds(a: Seq<bool>, c: Seq<int>) -> bool {
    exists|k: int| 0 <= k < c.len() && lit_holds(a, #[trigger] c[k])
}

/// Whether every clause of the list holds.
pub open spec fn cnf_sat(a: Seq<bool>, cs: Seq<Seq<int>>) -> bool {
    forall|i: int| 0 <= i < cs.len() ==> clause_holds(a, #[trigger] cs[i])
}

/// Odd parity of the first `k` children's values.
pub open spec fn xor_parity(cs: Seq<NodeId>, a: Seq<bool>, k: nat) -> bool
    decreases k,
{
    if k == 0 || k > cs.len() {
        false
    } else {
        xor_parity(cs, a, (k - 1) as nat) != a_at(a, cs[k - 1])
    }
}

/// The boolean value of a gate under an assignment of its children.
pub open spec fn gate_eval(n: Node, a: Seq<bool>) -> bool {
    match n {
        Node::Not(c) => !a_at(a, c),
        Node::And(v) => forall|x: int| 0 <= x < v@.len() ==> a_at(a, #[trigger] v@[x]),
        Node::Or(v) => exists|x: int| 0 <= x < v@.len() && a_at(a, #[trigger] v@[x]),
        Node::Xor(v) => xor_parity(v@, a, v@.len()),
        _ => false,
    }
}

/// Soundness and completeness of one gate's Tseitin clauses: under any
/// assignment of the variables, the clauses all hold if and only if the
/// gate's variable agrees with the boolean value of that gate over its
/// children. An exclusive-or gate obeys this with two children; with more,
/// some inputs admit either value of that gate's variable, so wider
/// exclusive-or gates stay outside this statement.
/// What the exclusive-or clause block enforces at every arity: the
/// variable of the node is forced true when exactly one child position is
/// true, and forced false unless some child is true and some child is
/// false.  At two children this is exclusive-or exactly; at more children
/// it is strictly weaker than parity, and assignments with, say, two true
/// children and one false leave the variable free.
pub proof fn lemma_xor_clauses_meaning(g: NodeId, cs: Seq<NodeId>, a: Seq<bool>)
    requires
        g < a.len(),
        forall|j: int| 0 <= j < cs.len() ==> #[trigger] cs[j] < a.len(),
    ensures
        cnf_sat(a, xor_clauses(g, cs)) <==> {
            &&& a[g as int] ==> ((exists|x: int| 0 <= x < cs.len() && a_at(a, #[trigger] cs[x]))
                && (exists|x: int| 0 <= x < cs.len() && !a_at(a, #[trigger] cs[x])))
            &&& forall|i: int|
                (0 <= i < cs.len() && a_at(a, #[trigger] cs[i]) && (forall|j: int|
                    0 <= j < cs.len() && j != i ==> !a_at(a, #[trigger] cs[j]))) ==> a[g as int]
        },
{
    let n = cs.len() as int;
    let cls = xor_clauses(g, cs);
    let gneg = Seq::new(cs.len(), |j: int| lit_int(true, cs[j])).push(lit_int(false, g));
    let allneg = Seq::new(cs.len(), |j: int| lit_int(false, cs[j])).push(lit_int(false, g));
    assert(cls[n] == gneg);
    assert(cls[n + 1] == allneg);
    let anyt = (exists|x: int| 0 <= x < cs.len() && a_at(a, #[trigger] cs[x]));
    let anyf = (exists|x: int| 0 <= x < cs.len() && !a_at(a, #[trigger] cs[x]));
    let onehot_to_g = (forall|i: int|
        (0 <= i < cs.len() && a_at(a, #[trigger] cs[i]) && (forall|j: int|
            0 <= j < cs.len() && j != i ==> !a_at(a, #[trigger] cs[j]))) ==> a[g as int]);
    if (a[g as int] ==> anyt && anyf) && onehot_to_g {
        assert forall|i: int| 0 <= i < cls.len() implies clause_holds(a, #[trigger] cls[i]) by {
            if i < n {
                let rowi = Seq::new(cs.len(), |j: int| lit_int(j != i, cs[j])).push(
                    lit_int(true, g),
                );
                assert(cls[i] == rowi);
                assert(rowi[i] == lit_int(false, cs[i]));
                if !a_at(a, cs[i]) {
                    assert(lit_holds(a, rowi[i]));
                } else if exists|w: int| 0 <= w < cs.len() && w != i && a_at(a, #[trigger] cs[w]) {
                    let w = choose|w: int| 0 <= w < cs.len() && w != i && a_at(a, cs[w]);
                    assert(rowi[w] == lit_int(true, cs[w]));
                    assert(lit_holds(a, rowi[w]));
                } else {
                    assert(forall|j: int| 0 <= j < cs.len() && j != i ==> !a_at(a, #[trigger] cs[j]));
                    assert(a[g as int]);
                    assert(rowi[n] == lit_int(true, g));
                    assert(lit_holds(a, rowi[n]));
                }
            } else if i == n {
                if a[g as int] {
                    let w = choose|w: int| 0 <= w < cs.len() && a_at(a, cs[w]);
                    assert(gneg[w] == lit_int(true, cs[w]));
                    assert(lit_holds(a, gneg[w]));
                } else {
                    assert(gneg[n] == lit_int(false, g));
                    assert(lit_holds(a, gneg[n]));
                }
            } else {
                if a[g as int] {
                    let w = choose|w: int| 0 <= w < cs.len() && !a_at(a, cs[w]);
                    assert(allneg[w] == lit_int(false, cs[w]));
                    assert(lit_holds(a, allneg[w]));
                } else {
                    assert(allneg[n] == lit_int(false, g));
                    assert(lit_holds(a, allneg[n]));
                }
            }
        }
    }
    if cnf_sat(a, cls) {
        if a[g as int] {
            assert(clause_holds(a, cls[n]));
            let k = choose|k: int| 0 <= k < gneg.len() && lit_holds(a, #[trigger] gneg[k]);
            if k < n {
                assert(gneg[k] == lit_int(true, cs[k]));
                assert(a_at(a, cs[k]));
            } else {
                assert(gneg[k] == lit_int(false, g));
                assert(false);
            }
            assert(clause_holds(a, cls[n + 1]));
            let k2 = choose|k2: int| 0 <= k2 < allneg.len() && lit_holds(a, #[trigger] allneg[k2]);
            if k2 < n {
                assert(allneg[k2] == lit_int(false, cs[k2]));
                assert(!a_at(a, cs[k2]));
            } else {
                assert(allneg[k2] == lit_int(false, g));
                assert(false);
            }
        }
        assert forall|i: int|
            (0 <= i < cs.len() && a_at(a, #[trigger] cs[i]) && (forall|j: int|
                0 <= j < cs.len() && j != i ==> !a_at(a, #[trigger] cs[j]))) implies a[
            g as int] by {
            let rowi = Seq::new(cs.len(), |j: int| lit_int(j != i, cs[j])).push(lit_int(true, g));
            assert(cls[i] == rowi);
            assert(clause_holds(a, cls[i]));
            let k = choose|k: int| 0 <= k < rowi.len() && lit_holds(a, #[trigger] rowi[k]);
            if k < n {
                if k == i {
                    assert(rowi[k] == lit_int(false, cs[i]));
                    assert(!a_at(a, cs[i]));
                    assert(false);
                } else {
                    assert(rowi[k] == lit_int(true, cs[k]));
                    assert(a_at(a, cs[k]));
                    assert(false);
                }
            } else {
                assert(rowi[k] == lit_int(true, g));
            }
        }
    }
}

pub proof fn lemma_tseitin_gate_exact(n: Node, id: NodeId, a: Seq<bool>)
    requires
        n is Not || n is And || n is Or || n is Xor,
        id < a.len(),
        forall|j: int| 0 <= j < node_children(n).len() ==> #[trigger] node_children(n)[j]
            < a.len(),
        n is Xor ==> node_children(n).len() == 2,
    ensures
        cnf_sat(a, node_clauses(n, id)) <==> (a[id as int] == gate_eval(n, a)),
{
    match n {
        Node::Not(c) => {
            let cls = not_clauses(id, c);
            assert(cls[0] == seq![lit_int(true, id), lit_int(true, c)]);
            assert(cls[1] == seq![lit_int(false, id), lit_int(false, c)]);
            if a[id as int] == gate_eval(n, a) {
                assert forall|i: int| 0 <= i < cls.len() implies clause_holds(
                    a,
                    #[trigger] cls[i],
                ) by {
                    if i == 0 {
                        if a[id as int] {
                            assert(lit_holds(a, cls[0][0]));
                        } else {
                            assert(lit_holds(a, cls[0][1]));
                        }
                    } else {
                        if a[id as int] {
                            assert(lit_holds(a, cls[1][1]));
                        } else {
                            assert(lit_holds(a, cls[1][0]));
                        }
                    }
                }
            }
            if cnf_sat(a, cls) {
                assert(clause_holds(a, cls[0]));
                assert(clause_holds(a, cls[1]));
            }
        },
        Node::And(v) => {
            assert forall|j: int| 0 <= j < v@.len() implies #[trigger] v@[j] < a.len() by {
                assert(node_children(n)[j] < a.len());
            }
            lemma_and_clauses(v@, id, a);
        },
        Node::Or(v) => {
            assert forall|j: int| 0 <= j < v@.len() implies #[trigger] v@[j] < a.len() by {
                assert(node_children(n)[j] < a.len());
            }
            lemma_or_clauses(v@, id, a);
        },
        Node::Xor(v) => {
            let cs = v@;
            let cls = xor_clauses(id, cs);
            let c0 = cs[0];
            let c1 = cs[1];
            assert(gate_eval(n, a) == (a_at(a, c0) != a_at(a, c1))) by {
                assert(xor_parity(cs, a, 2) == (xor_parity(cs, a, 1) != a_at(a, cs[1])));
                assert(xor_parity(cs, a, 1) == (xor_parity(cs, a, 0) != a_at(a, cs[0])));
            }
            assert(cls.len() == 4);
            let row0 = Seq::new(2, |j: int| lit_int(j != 0, cs[j])).push(lit_int(true, id));
            let row1 = Seq::new(2, |j: int| lit_int(j != 1, cs[j])).push(lit_int(true, id));
            let gneg = Seq::new(2, |j: int| lit_int(true, cs[j])).push(lit_int(false, id));
            let allneg = Seq::new(2, |j: int| lit_int(false, cs[j])).push(lit_int(false, id));
            assert(cls[0] == row0);
            assert(cls[1] == row1);
            assert(cls[2] == gneg);
            assert(cls[3] == allneg);
            assert(row0[0] == lit_int(false, c0) && row0[1] == lit_int(true, c1) && row0[2]
                == lit_int(true, id));
            assert(row1[0] == lit_int(true, c0) && row1[1] == lit_int(false, c1) && row1[2]
                == lit_int(true, id));
            assert(gneg[0] == lit_int(true, c0) && gneg[1] == lit_int(true, c1) && gneg[2]
                == lit_int(false, id));
            assert(allneg[0] == lit_int(false, c0) && allneg[1] == lit_int(false, c1) && allneg[2]
                == lit_int(false, id));
            if a[id as int] == gate_eval(n, a) {
                assert forall|i: int| 0 <= i < cls.len() implies clause_holds(
                    a,
                    #[trigger] cls[i],
                ) by {
                    if a_at(a, c0) {
                        if a_at(a, c1) {
                            // two true children: that gate reads false
                            if i == 0 {
                                assert(lit_holds(a, row0[1]));
                            } else if i == 1 {
                                assert(lit_holds(a, row1[0]));
                            } else if i == 2 {
                                assert(lit_holds(a, gneg[0]));
                            } else {
                                assert(lit_holds(a, allneg[2]));
                            }
                        } else {
                            if i == 0 {
                                assert(lit_holds(a, row0[2]));
                            } else if i == 1 {
                                assert(lit_holds(a, row1[0]));
                            } else if i == 2 {
                                assert(lit_holds(a, gneg[0]));
                            } else {
                                assert(lit_holds(a, allneg[1]));
                            }
                        }
                    } else {
                        if a_at(a, c1) {
                            if i == 0 {
                                assert(lit_holds(a, row0[0]));
                            } else if i == 1 {
                                assert(lit_holds(a, row1[2]));
                            } else if i == 2 {
                                assert(lit_holds(a, gneg[1]));
                            } else {
                                assert(lit_holds(a, allneg[0]));
                            }
                        } else {
                            // two false children: that gate reads false
                            if i == 0 {
                                assert(lit_holds(a, row0[0]));
                            } else if i == 1 {
                                assert(lit_holds(a, row1[1]));
                            } else if i == 2 {
                                assert(lit_holds(a, gneg[2]));
                            } else {
                                assert(lit_holds(a, allneg[0]));
                            }
                        }
                    }
                }
            }
            if cnf_sat(a, cls) {
                assert(clause_holds(a, cls[0]));
                assert(clause_holds(a, cls[1]));
                assert(clause_holds(a, cls[2]));
                assert(clause_holds(a, cls[3]));
                if a[id as int] != gate_eval(n, a) {
                    if a_at(a, c0) == a_at(a, c1) {
                        // gate is false but its variable reads true
                        if a_at(a, c0) {
                            assert(!clause_holds(a, cls[2])) by {
                                assert(!lit_holds(a, gneg[0]));
                                assert(!lit_holds(a, gneg[1]));
                                assert(!lit_holds(a, gneg[2]));
                            }
                        } else {
                            assert(!clause_holds(a, cls[3])) by {
                                assert(!lit_holds(a, allneg[0]));
                                assert(!lit_holds(a, allneg[1]));
                                assert(!lit_holds(a, allneg[2]));
                            }
                        }
                    } else {
                        // gate is true but its variable reads false
                        if a_at(a, c0) {
                            assert(!clause_holds(a, cls[1])) by {
                                assert(!lit_holds(a, row1[0]));
                                assert(!lit_holds(a, row1[1]));
                                assert(!lit_holds(a, row1[2]));
                            }
                        } else {
                            assert(!clause_holds(a, cls[0])) by {
                                assert(!lit_holds(a, row0[0]));
                                assert(!lit_holds(a, row0[1]));
                                assert(!lit_holds(a, row0[2]));
                            }
                        }
                    }
                }
            }
        },
        _ => {},
    }
}

proof fn lemma_and_clauses(cs: Seq<NodeId>, id: NodeId, a: Seq<bool>)
    requires
        id < a.len(),
        forall|j: int| 0 <= j < cs.len() ==> #[trigger] cs[j] < a.len(),
    ensures
        cnf_sat(a, and_clauses(id, cs)) <==> (a[id as int] == (forall|x: int|
            0 <= x < cs.len() ==> a_at(a, #[trigger] cs[x]))),
{
    let cls = and_clauses(id, cs);
    let long = Seq::new(cs.len(), |i: int| lit_int(false, cs[i])).push(lit_int(true, id));
    assert(cls[cs.len() as int] == long);
    let allv = (forall|x: int| 0 <= x < cs.len() ==> a_at(a, #[trigger] cs[x]));
    if a[id as int] == allv {
        assert forall|i: int| 0 <= i < cls.len() implies clause_holds(a, #[trigger] cls[i]) by {
            if i < cs.len() {
                assert(cls[i] == seq![lit_int(false, id), lit_int(true, cs[i])]);
                if a[id as int] {
                    assert(a_at(a, cs[i]));
                    assert(lit_holds(a, cls[i][1]));
                } else {
                    assert(lit_holds(a, cls[i][0]));
                }
            } else {
                if allv {
                    assert(lit_holds(a, long[cs.len() as int]));
                } else {
                    let w = choose|w: int| 0 <= w < cs.len() && !a_at(a, cs[w]);
                    assert(long[w] == lit_int(false, cs[w]));
                    assert(lit_holds(a, long[w]));
                }
            }
        }
    }
    if cnf_sat(a, cls) && a[id as int] != allv {
        if a[id as int] {
            // some child is false, refuting its binary clause
            let w = choose|w: int| 0 <= w < cs.len() && !a_at(a, cs[w]);
            assert(clause_holds(a, cls[w]));
            assert(cls[w] == seq![lit_int(false, id), lit_int(true, cs[w])]);
            assert(!lit_holds(a, cls[w][0]));
            assert(!lit_holds(a, cls[w][1]));
            let k = choose|k: int| 0 <= k < cls[w].len() && lit_holds(a, #[trigger] cls[w][k]);
            assert(k == 0 || k == 1);
            assert(false);
        } else {
            // every child is true, refuting the closing clause
            assert(clause_holds(a, cls[cs.len() as int]));
            let k = choose|k: int| 0 <= k < long.len() && lit_holds(a, #[trigger] long[k]);
            if k < cs.len() {
                assert(long[k] == lit_int(false, cs[k]));
                assert(a_at(a, cs[k]));
                assert(false);
            } else {
                assert(long[k] == lit_int(true, id));
                assert(false);
            }
        }
    }
}

proof fn lemma_or_clauses(cs: Seq<NodeId>, id: NodeId, a: Seq<bool>)
    requires
        id < a.len(),
        forall|j: int| 0 <= j < cs.len() ==> #[trigger] cs[j] < a.len(),
    ensures
        cnf_sat(a, or_clauses(id, cs)) <==> (a[id as int] == (exists|x: int|
            0 <= x < cs.len() && a_at(a, #[trigger] cs[x]))),
{
    let cls = or_clauses(id, cs);
    let long = Seq::new(cs.len(), |i: int| lit_int(true, cs[i])).push(lit_int(false, id));
    assert(cls[cs.len() as int] == long);
    let anyv = (exists|x: int| 0 <= x < cs.len() && a_at(a, #[trigger] cs[x]));
    if a[id as int] == anyv {
        assert forall|i: int| 0 <= i < cls.len() implies clause_holds(a, #[trigger] cls[i]) by {
            if i < cs.len() {
                assert(cls[i] == seq![lit_int(true, id), lit_int(false, cs[i])]);
                if a_at(a, cs[i]) {
                    assert(a[id as int]);
                    assert(lit_holds(a, cls[i][0]));
                } else {
                    assert(lit_holds(a, cls[i][1]));
                }
            } else {
                if anyv {
                    let w = choose|w: int| 0 <= w < cs.len() && a_at(a, cs[w]);
                    assert(long[w] == lit_int(true, cs[w]));
                    assert(lit_holds(a, long[w]));
                } else {
                    assert(lit_holds(a, long[cs.len() as int]));
                }
            }
        }
    }
    if cnf_sat(a, cls) && a[id as int] != anyv {
        if a[id as int] {
            // no child is true, refuting the closing clause
            assert(clause_holds(a, cls[cs.len() as int]));
            let k = choose|k: int| 0 <= k < long.len() && lit_holds(a, #[trigger] long[k]);
            if k < cs.len() {
                assert(long[k] == lit_int(true, cs[k]));
                assert(a_at(a, cs[k]));
                assert(false);
            } else {
                assert(long[k] == lit_int(false, id));
                assert(false);
            }
        } else {
            // some child is true, refuting its binary clause
            let w = choose|w: int| 0 <= w < cs.len() && a_at(a, cs[w]);
            assert(clause_holds(a, cls[w]));
            assert(cls[w] == seq![lit_int(true, id), lit_int(false, cs[w])]);
            assert(!lit_holds(a, cls[w][0]));
            assert(!lit_holds(a, cls[w][1]));
            let k = choose|k: int| 0 <= k < cls[w].len() && lit_holds(a, #[trigger] cls[w][k]);
            assert(k == 0 || k == 1);
            assert(false);
        }
    }
}

/// A single-child AND, OR or XOR gate has the boolean value of its child:
/// the ground of the single-child simplification, which never changes what
/// the tree computes.
pub proof fn lemma_single_child_gate(n: Node, a: Seq<bool>)
    requires
        n is And || n is Or || n is Xor,
        node_children(n).len() == 1,
    ensures
        gate_eval(n, a) == a_at(a, node_children(n)[0]),
{
    match n {
        Node::And(v) => {
            if a_at(a, v@[0]) {
                assert forall|x: int| 0 <= x < v@.len() implies a_at(a, #[trigger] v@[x]) by {
                    assert(x == 0);
                }
            }
        },
        Node::Or(v) => {
            if a_at(a, v@[0]) {
                assert(0 <= 0 < v@.len() && a_at(a, v@[0]));
            }
        },
        Node::Xor(v) => {
            assert(xor_parity(v@, a, 1) == (xor_parity(v@, a, 0) != a_at(a, v@[0])));
        },
        _ => {},
    }
}

/// Every exclusive-or gate of the tree has exactly two children.
pub open spec fn tree_xors_binary(nodes: Seq<Node>) -> bool {
    forall|k: int|
        0 <= k < nodes.len() ==> ((#[trigger] nodes[k]) is Xor ==> node_children(
            nodes[k],
        ).len() == 2)
}

/// Satisfying a concatenation of clause lists is satisfying both parts.
proof fn lemma_cnf_sat_concat(a: Seq<bool>, x: Seq<Seq<int>>, y: Seq<Seq<int>>)
    ensures
        cnf_sat(a, x + y) <==> (cnf_sat(a, x) && cnf_sat(a, y)),
{
    if cnf_sat(a, x + y) {
        assert forall|i: int| 0 <= i < x.len() implies clause_holds(a, #[trigger] x[i]) by {
            assert((x + y)[i] == x[i]);
        }
        assert forall|i: int| 0 <= i < y.len() implies clause_holds(a, #[trigger] y[i]) by {
            assert((x + y)[x.len() + i] == y[i]);
        }
    }
    if cnf_sat(a, x) && cnf_sat(a, y) {
        assert forall|i: int| 0 <= i < (x + y).len() implies clause_holds(
            a,
            #[trigger] (x + y)[i],
        ) by {
            if i < x.len() {
                assert((x + y)[i] == x[i]);
            } else {
                assert((x + y)[i] == y[i - x.len()]);
            }
        }
    }
}

/// The clauses of the first `n` nodes hold exactly when every gate
/// variable among them agrees with its own boolean value.
proof fn lemma_gates_cnf_sat(nodes: Seq<Node>, n: int, a: Seq<bool>)
    requires
        0 <= n <= nodes.len(),
        nodes.len() <= usize::MAX,
        a.len() == nodes.len(),
        forall|i: int, j: int|
            0 <= i < nodes.len() && 0 <= j < node_children(#[trigger] nodes[i]).len()
                ==> #[trigger] node_children(nodes[i])[j] < nodes.len(),
        forall|i: int|
            0 <= i < nodes.len() ==> !((#[trigger] nodes[i]) is PlaceHolder) && !(nodes[i]
                is Vot),
        tree_xors_binary(nodes),
    ensures
        cnf_sat(a, gates_cnf(nodes, n)) <==> (forall|k: int|
            0 <= k < n && !((#[trigger] nodes[k]) is BasicEvent) ==> a[k] == gate_eval(
                nodes[k],
                a,
            )),
    decreases n,
{
    if n == 0 {
        assert(cnf_sat(a, gates_cnf(nodes, 0)));
    } else {
        lemma_gates_cnf_sat(nodes, n - 1, a);
        assert(gates_cnf(nodes, n) == gates_cnf(nodes, n - 1) + node_clauses(
            nodes[n - 1],
            (n - 1) as usize,
        ));
        lemma_cnf_sat_concat(a, gates_cnf(nodes, n - 1), node_clauses(nodes[n - 1], (n - 1) as usize));
        if nodes[n - 1] is BasicEvent {
            assert(node_clauses(nodes[n - 1], (n - 1) as usize) =~= Seq::<Seq<int>>::empty());
            assert(cnf_sat(a, node_clauses(nodes[n - 1], (n - 1) as usize)));
        } else {
            assert forall|j: int|
                0 <= j < node_children(nodes[n - 1]).len() implies #[trigger] node_children(
                nodes[n - 1],
            )[j] < a.len() by {
                assert(node_children(nodes[n - 1])[j] < nodes.len());
            }
            lemma_tseitin_gate_exact(nodes[n - 1], (n - 1) as usize, a);
        }
        if cnf_sat(a, gates_cnf(nodes, n)) {
            assert forall|k: int|
                0 <= k < n && !((#[trigger] nodes[k]) is BasicEvent) implies a[k] == gate_eval(
                nodes[k],
                a,
            ) by {
                if k < n - 1 {
                    assert(cnf_sat(a, gates_cnf(nodes, n - 1)));
                    assert(a[k] == gate_eval(nodes[k], a));
                } else {
                    assert(k == n - 1);
                    assert(cnf_sat(a, node_clauses(nodes[n - 1], (n - 1) as usize)));
                    assert(a[(n - 1) as usize as int] == gate_eval(nodes[n - 1], a));
                }
            }
        }
        if (forall|k: int|
            0 <= k < n && !((#[trigger] nodes[k]) is BasicEvent) ==> a[k] == gate_eval(
                nodes[k],
                a,
            )) {
            assert forall|k: int|
                0 <= k < n - 1 && !((#[trigger] nodes[k]) is BasicEvent) implies a[k] == gate_eval(
                nodes[k],
                a,
            ) by {
                assert(a[k] == gate_eval(nodes[k], a));
            }
        }
    }
}

/// The whole encoding characterizes the tree and nothing else: an
/// assignment satisfies the emitted CNF exactly when it satisfies the
/// root's unit literal and gives every gate variable the boolean value of
/// its gate over its children.  Exclusive-or gates are covered with two
/// children, the arity the encoder's clauses pin down.
pub proof fn lemma_encoding_characterizes_tree(ft: FaultTree, a: Seq<bool>)
    requires
        ft_wf(ft),
        crate::fault_tree::ft_normalized(ft),
        a.len() == ft.nodes@.len(),
        tree_xors_binary(ft.nodes@),
    ensures
        cnf_sat(a, ft_cnf(ft)) <==> (lit_holds(a, unit_clause(ft)[0]) && forall|k: int|
            0 <= k < ft.nodes@.len() && !((#[trigger] ft.nodes@[k]) is BasicEvent) ==> a[k]
                == gate_eval(ft.nodes@[k], a)),
{
    let gates = gates_cnf(ft.nodes@, ft.nodes@.len() as int);
    lemma_unit_split(ft, a, gates);
    lemma_gates_cnf_sat(ft.nodes@, ft.nodes@.len() as int, a);
}

/// The OR-root negation trick at the level of assignments: the encoding
/// with the negation flag is satisfied exactly by the assignments that
/// satisfy every gate clause and falsify the root, while the plain
/// encoding is satisfied exactly by those that satisfy every gate clause
/// and the root. Together the two families partition the assignments that
/// satisfy every gate clause, which is what lets the driver report one
/// minus the solver's value.
pub proof fn lemma_or_root_negation(ft: FaultTree, ftn: FaultTree, a: Seq<bool>)
    requires
        ft_wf(ft),
        ftn.nodes == ft.nodes,
        ftn.root_id == ft.root_id,
        !ft.negate_or,
        ftn.negate_or,
        a.len() == ft.nodes@.len(),
    ensures
        cnf_sat(a, ft_cnf(ft)) <==> (cnf_sat(a, gates_cnf(ft.nodes@, ft.nodes@.len() as int))
            && a[ft.root_id as int]),
        ftn.nodes@[ftn.root_id as int] is Or ==> (cnf_sat(a, ft_cnf(ftn)) <==> (cnf_sat(
            a,
            gates_cnf(ft.nodes@, ft.nodes@.len() as int),
        ) && !a[ft.root_id as int])),
{
    let gates = gates_cnf(ft.nodes@, ft.nodes@.len() as int);
    lemma_unit_split(ft, a, gates);
    lemma_unit_split(ftn, a, gates);
}

proof fn lemma_unit_split(ft: FaultTree, a: Seq<bool>, gates: Seq<Seq<int>>)
    requires
        ft.root_id < ft.nodes@.len(),
        a.len() == ft.nodes@.len(),
        gates == gates_cnf(ft.nodes@, ft.nodes@.len() as int),
    ensures
        cnf_sat(a, ft_cnf(ft)) <==> (cnf_sat(a, gates) && (lit_holds(
            a,
            unit_clause(ft)[0],
        ))),
{
    let whole = ft_cnf(ft);
    assert(whole[0] == unit_clause(ft));
    assert(whole.len() == 1 + gates.len());
    if cnf_sat(a, whole) {
        assert(clause_holds(a, whole[0]));
        let k = choose|k: int|
            0 <= k < unit_clause(ft).len() && lit_holds(a, #[trigger] unit_clause(ft)[k]);
        assert(k == 0);
        assert forall|i: int| 0 <= i < gates.len() implies clause_holds(a, #[trigger] gates[i]) by {
            assert(whole[i + 1] == gates[i]);
        }
    }
    if cnf_sat(a, gates) && lit_holds(a, unit_clause(ft)[0]) {
        assert forall|i: int| 0 <= i < whole.len() implies clause_holds(a, #[trigger] whole[i]) by {
            if i == 0 {
                assert(lit_holds(a, unit_clause(ft)[0]));
            } else {
                assert(whole[i] == gates[i - 1]);
            }
        }
    }
}

} // verus!

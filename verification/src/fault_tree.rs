use vstd::prelude::*;

use crate::dec::{Dec, dec_wf, dec_num, dec_is_prob, p10, dec_str, dec_complement, dec_push};
use crate::formula::{Formula, NodeId, lit_int, fml_cnf, clauses_of, lemma_clauses_of_concat,
    lemma_clauses_of_push, CNFFormat};
use crate::nodes::{Node, BasicEvent, Distribution, node_children, node_clauses, be_wf, copy_ids};
use vstd::string::StringExecFns;
use crate::FtError;
use crate::strutil::{nat_str, push_usize, push_str_chars, push_all, chars_to_string};
use crate::fault_tree_normalizer::{staged_nodes, chains_blocked, lines_ok, lookup_spec,
    vrewritten, mapper_fold, root_name_fold, names_fold, ph_resolved, ph_plan_ok};

verus! {

/// A fault tree: a dense, indexed container of nodes, the identifier of the
/// root, and the flag asking to negate an OR root in the encoding.
pub struct FaultTree {
    pub nodes: Vec<Node>,
    pub root_id: NodeId,
    pub node_counter: usize,
    pub negate_or: bool,
}

/// Every identifier the tree refers to exists, every basic event is in
/// range, and the node counter matches the container.
pub open spec fn ft_wf(ft: FaultTree) -> bool {
    &&& ft.root_id < ft.nodes@.len()
    &&& ft.node_counter == ft.nodes@.len()
    &&& forall|i: int, j: int|
        0 <= i < ft.nodes@.len() && 0 <= j < node_children(#[trigger] ft.nodes@[i]).len()
            ==> #[trigger] node_children(ft.nodes@[i])[j] < ft.nodes@.len()
    &&& forall|i: int|
        0 <= i < ft.nodes@.len() ==> (#[trigger] ft.nodes@[i] matches Node::BasicEvent(_, be)
            ==> be_wf(be))
}

/// No placeholder and no unexpanded voting gate remains.
pub open spec fn ft_normalized(ft: FaultTree) -> bool {
    forall|i: int|
        0 <= i < ft.nodes@.len() ==> !((#[trigger] ft.nodes@[i]) is PlaceHolder) && !(ft.nodes@[i]
            is Vot)
}

/// Every basic event carries a discrete probability, so each weight is an
/// exact decimal.
pub open spec fn all_bes_discrete(nodes: Seq<Node>) -> bool {
    forall|i: int|
        0 <= i < nodes.len() ==> (#[trigger] nodes[i] matches Node::BasicEvent(_, be) ==> be.dist
            is Discrete)
}

/// The unit clause the encoder puts first: the root, negated when the root
/// is an OR gate and the negation flag is set.
pub open spec fn unit_clause(ft: FaultTree) -> Seq<int> {
    if ft.nodes@[ft.root_id as int] is Or && ft.negate_or {
        seq![lit_int(false, ft.root_id)]
    } else {
        seq![lit_int(true, ft.root_id)]
    }
}

/// The Tseitin clauses of the first `n` nodes, in node order.
pub open spec fn gates_cnf(nodes: Seq<Node>, n: int) -> Seq<Seq<int>>
    decreases n,
{
    if n <= 0 {
        Seq::empty()
    } else {
        gates_cnf(nodes, n - 1) + node_clauses(nodes[n - 1], (n - 1) as usize)
    }
}

/// The whole CNF of the tree: the root's unit clause, then every node's
/// clauses in node order.
pub open spec fn ft_cnf(ft: FaultTree) -> Seq<Seq<int>> {
    seq![unit_clause(ft)] + gates_cnf(ft.nodes@, ft.nodes@.len() as int)
}

impl FaultTree {
    /// A tree with no nodes yet.  Its root identifier only becomes valid
    /// once a node is added.
    pub fn empty() -> (r: Self)
        ensures
            r.nodes@.len() == 0,
            r.root_id == 0,
            r.node_counter == 0,
            !r.negate_or,
    {
        FaultTree { nodes: Vec::new(), root_id: 0, node_counter: 0, negate_or: false }
    }

    /// The next free identifier; the caller must add the node right away.
    pub fn new_id(&mut self) -> (r: NodeId)
        requires
            old(self).node_counter == old(self).nodes@.len(),
            old(self).nodes@.len() < usize::MAX,
        ensures
            r == old(self).nodes@.len(),
            final(self).node_counter == old(self).node_counter + 1,
            final(self).nodes == old(self).nodes,
            final(self).root_id == old(self).root_id,
            final(self).negate_or == old(self).negate_or,
    {
        let id = self.node_counter;
        self.node_counter = self.node_counter + 1;
        id
    }

    /// Appends the node under the identifier just issued.
    pub fn add_node(&mut self, node: Node, nid: NodeId)
        requires
            nid == old(self).nodes@.len(),
        ensures
            final(self).nodes@ == old(self).nodes@.push(node),
            final(self).root_id == old(self).root_id,
            final(self).node_counter == old(self).node_counter,
            final(self).negate_or == old(self).negate_or,
    {
        self.nodes.push(node);
    }

    /// Replaces the node stored under an existing identifier.
    pub fn update_root(&mut self, new_node: Node, nid: NodeId)
        requires
            nid < old(self).nodes@.len(),
        ensures
            final(self).nodes@ == old(self).nodes@.update(nid as int, new_node),
            final(self).root_id == old(self).root_id,
            final(self).node_counter == old(self).node_counter,
            final(self).negate_or == old(self).negate_or,
    {
        self.nodes.set(nid, new_node);
    }

    /// Replaces the node stored under an existing identifier.
    pub fn update_roots(&mut self, new_node: Node, nid: NodeId)
        requires
            nid < old(self).nodes@.len(),
        ensures
            final(self).nodes@ == old(self).nodes@.update(nid as int, new_node),
            final(self).root_id == old(self).root_id,
            final(self).node_counter == old(self).node_counter,
            final(self).negate_or == old(self).negate_or,
    {
        self.nodes.set(nid, new_node);
    }

    /// The number of nodes, which is also the number of CNF variables.
    pub fn get_count(&self) -> (r: usize)
        ensures
            r == self.node_counter,
    {
        self.node_counter
    }

    /// Applies the Tseitin transformation to every node of the tree and
    /// conjoins the root's unit clause in front.
    pub fn apply_tseitin(&self) -> (r: Formula)
        requires
            ft_wf(*self),
            ft_normalized(*self),
        ensures
            fml_cnf(r) == Some(ft_cnf(*self)),
    {
        let root_node_is_or = match &self.nodes[self.root_id] {
            Node::Or(_) => true,
            _ => false,
        };
        let first = if root_node_is_or && self.negate_or {
            crate::formula::lit_formula(false, self.root_id)
        } else {
            crate::formula::lit_formula(true, self.root_id)
        };
        let mut unit_vec: Vec<Formula> = Vec::new();
        proof {
            crate::formula::lemma_lits_of_push(unit_vec@, first);
        }
        unit_vec.push(first);
        let unit = Formula::Or(unit_vec);
        proof {
            assert(crate::formula::fml_clause(unit) == Some(unit_clause(*self))) by {
                assert(Seq::<int>::empty().push(
                    crate::formula::fml_lit(first)->Some_0,
                ) =~= unit_clause(*self));
            }
        }
        let mut args: Vec<Formula> = Vec::new();
        proof {
            lemma_clauses_of_push(args@, unit);
            assert(Seq::<Seq<int>>::empty().push(unit_clause(*self)) =~= seq![unit_clause(*self)]);
        }
        args.push(unit);
        let mut i: usize = 0;
        proof {
            assert(seq![unit_clause(*self)] + gates_cnf(self.nodes@, 0) =~= seq![unit_clause(
                *self,
            )]);
        }
        while i < self.nodes.len()
            invariant
                ft_wf(*self),
                ft_normalized(*self),
                i <= self.nodes@.len(),
                clauses_of(args@) == Some(
                    seq![unit_clause(*self)] + gates_cnf(self.nodes@, i as int),
                ),
            decreases self.nodes@.len() - i,
        {
            let node = &self.nodes[i];
            match node.tseitin_transformation(i) {
                Formula::And(or_args) => {
                    let ghost pre = args@;
                    let mut more = or_args;
                    proof {
                        lemma_clauses_of_concat(args@, more@);
                    }
                    args.append(&mut more);
                    proof {
                        assert((seq![unit_clause(*self)] + gates_cnf(self.nodes@, i as int))
                            + node_clauses(self.nodes@[i as int], i) =~= seq![unit_clause(*self)]
                            + gates_cnf(self.nodes@, i + 1));
                    }
                },
                _ => {
                    // a basic event: no clauses
                    proof {
                        assert(node_clauses(self.nodes@[i as int], i) =~= Seq::<Seq<int>>::empty());
                        assert((seq![unit_clause(*self)] + gates_cnf(self.nodes@, i as int)) + Seq::<
                            Seq<int>,
                        >::empty() =~= seq![unit_clause(*self)] + gates_cnf(self.nodes@, i + 1));
                    }
                },
            }
            i = i + 1;
        }
        Formula::And(args)
    }
}

/// The text of one literal: the decimal variable, minus-signed when negative.
pub open spec fn lit_str(l: int) -> Seq<char> {
    if l < 0 {
        seq!['-'] + nat_str((-l) as nat)
    } else {
        nat_str(l as nat)
    }
}

/// The text of one clause: each literal followed by a space, closed by `0`
/// and a line break.
pub open spec fn clause_text(c: Seq<int>) -> Seq<char>
    decreases c.len(),
{
    if c.len() == 0 {
        seq!['0', '\n']
    } else {
        lit_str(c[0]) + seq![' '] + clause_text(c.drop_first())
    }
}

/// The text of a whole clause list.
pub open spec fn cnf_text(cs: Seq<Seq<int>>) -> Seq<char>
    decreases cs.len(),
{
    if cs.len() == 0 {
        Seq::empty()
    } else {
        clause_text(cs[0]) + cnf_text(cs.drop_first())
    }
}

/// The DIMACS problem line of the chosen dialect.
pub open spec fn problem_line(fmt: CNFFormat, nvars: nat, nclauses: nat) -> Seq<char> {
    (match fmt {
        CNFFormat::MC21 => seq!['p', ' ', 'c', 'n', 'f', ' '],
        CNFFormat::MCC => seq!['p', ' ', 'w', 'c', 'n', 'f', ' '],
    }) + nat_str(nvars) + seq![' '] + nat_str(nclauses) + seq!['\n']
}

/// The prefix of each weight line in the chosen dialect.
pub open spec fn weight_prefix(fmt: CNFFormat) -> Seq<char> {
    match fmt {
        CNFFormat::MC21 => seq!['c', ' ', 'p', ' ', 'w', 'e', 'i', 'g', 'h', 't'],
        CNFFormat::MCC => seq!['w'],
    }
}

/// The complement `1 - p` of a probability, at the same scale.
pub open spec fn compl_spec(p: Dec) -> Dec {
    Dec { neg: false, mant: (p10(p.scale as nat) - p.mant) as u128, scale: p.scale }
}

/// One pair of weight lines: the positive literal's weight and the negative
/// literal's weight, each closed by ` 0` and a line break.
pub open spec fn weight_pair(prefix: Seq<char>, var: nat, w: Seq<char>, wneg: Seq<char>)
    -> Seq<char> {
    prefix + seq![' '] + nat_str(var) + seq![' '] + w + seq![' ', '0', '\n'] + prefix + seq![
        ' ',
        '-',
    ] + nat_str(var) + seq![' '] + wneg + seq![' ', '0', '\n']
}

/// The weight lines of the basic events among the first `n` nodes: the
/// event's probability and its complement.
pub open spec fn be_weight_lines(nodes: Seq<Node>, prefix: Seq<char>, n: int) -> Seq<char>
    decreases n,
{
    if n <= 0 {
        Seq::empty()
    } else {
        be_weight_lines(nodes, prefix, n - 1) + (match nodes[n - 1] {
            Node::BasicEvent(_, be) => match be.dist {
                Distribution::Discrete(p) => weight_pair(
                    prefix,
                    n as nat,
                    dec_str(p),
                    dec_str(compl_spec(p)),
                ),
                Distribution::Continuous(_) => Seq::empty(),
            },
            _ => Seq::empty(),
        })
    }
}

/// The weight lines of the gates among the first `n` nodes: one for each
/// polarity.
pub open spec fn gate_weight_lines(nodes: Seq<Node>, prefix: Seq<char>, n: int) -> Seq<char>
    decreases n,
{
    if n <= 0 {
        Seq::empty()
    } else {
        gate_weight_lines(nodes, prefix, n - 1) + (match nodes[n - 1] {
            Node::BasicEvent(_, _) => Seq::empty(),
            _ => weight_pair(prefix, n as nat, seq!['1'], seq!['1']),
        })
    }
}

/// Every literal of the tree's CNF names a variable of the tree.
pub proof fn lemma_ft_cnf_lits_in_range(ft: FaultTree)
    requires
        ft_wf(ft),
    ensures
        forall|i: int, j: int|
            0 <= i < ft_cnf(ft).len() && 0 <= j < ft_cnf(ft)[i].len() ==> 1 <= #[trigger] abs_lit(
                ft_cnf(ft)[i][j],
            ) <= ft.nodes@.len(),
{
    lemma_gates_cnf_lits(ft.nodes@, ft.nodes@.len() as int);
    assert forall|i: int, j: int|
        0 <= i < ft_cnf(ft).len() && 0 <= j < ft_cnf(ft)[i].len() implies 1 <= #[trigger] abs_lit(
        ft_cnf(ft)[i][j],
    ) <= ft.nodes@.len() by {
        if i == 0 {
            assert(ft_cnf(ft)[0] == unit_clause(ft));
        } else {
            assert(ft_cnf(ft)[i] == gates_cnf(ft.nodes@, ft.nodes@.len() as int)[i - 1]);
        }
    }
}

/// The magnitude of a literal.
pub open spec fn abs_lit(l: int) -> int {
    if l < 0 {
        -l
    } else {
        l
    }
}

proof fn lemma_gates_cnf_lits(nodes: Seq<Node>, n: int)
    requires
        n <= nodes.len(),
        forall|i: int, j: int|
            0 <= i < nodes.len() && 0 <= j < node_children(#[trigger] nodes[i]).len()
                ==> #[trigger] node_children(nodes[i])[j] < nodes.len(),
    ensures
        forall|i: int, j: int|
            0 <= i < gates_cnf(nodes, n).len() && 0 <= j < gates_cnf(nodes, n)[i].len() ==> 1
                <= #[trigger] abs_lit(gates_cnf(nodes, n)[i][j]) <= nodes.len(),
    decreases n,
{
    if n > 0 {
        lemma_gates_cnf_lits(nodes, n - 1);
        let prev = gates_cnf(nodes, n - 1);
        let own = node_clauses(nodes[n - 1], (n - 1) as usize);
        lemma_node_clauses_lits(nodes, n - 1);
        assert forall|i: int, j: int|
            0 <= i < gates_cnf(nodes, n).len() && 0 <= j < gates_cnf(nodes, n)[i].len() implies 1
            <= #[trigger] abs_lit(gates_cnf(nodes, n)[i][j]) <= nodes.len() by {
            if i < prev.len() {
                assert(gates_cnf(nodes, n)[i] == prev[i]);
            } else {
                assert(gates_cnf(nodes, n)[i] == own[i - prev.len()]);
            }
        }
    }
}

/// Appends the text of one clause, read off a disjunction of literals.
fn push_clause(out: &mut Vec<char>, lits: &Vec<Formula>, Ghost(clause): Ghost<Seq<int>>, nvars: usize)
    requires
        crate::formula::lits_of(lits@) == Some(clause),
        forall|j: int| 0 <= j < clause.len() ==> 1 <= #[trigger] abs_lit(clause[j]) <= nvars,
    ensures
        final(out)@ == old(out)@ + clause_text(clause),
{
    proof {
        crate::formula::lemma_lits_of_index(lits@, clause);
    }
    let ghost start = out@;
    proof {
        assert(clause.subrange(0, clause.len() as int) =~= clause);
    }
    let mut j: usize = 0;
    while j < lits.len()
        invariant
            j <= lits@.len(),
            lits@.len() == clause.len(),
            forall|k: int| 0 <= k < clause.len() ==> crate::formula::fml_lit(#[trigger] lits@[k])
                == Some(clause[k]),
            forall|k: int| 0 <= k < clause.len() ==> 1 <= #[trigger] abs_lit(clause[k]) <= nvars,
            nvars <= usize::MAX,
            start + clause_text(clause) == out@ + clause_text(
                clause.subrange(j as int, clause.len() as int),
            ),
        decreases lits@.len() - j,
    {
        proof {
            assert(clause.subrange(j as int, clause.len() as int).drop_first() =~= clause.subrange(
                j + 1,
                clause.len() as int,
            ));
        }
        match &lits[j] {
            Formula::Atom(x) => {
                proof {
                    assert(clause[j as int] == lit_int(true, *x));
                    assert(abs_lit(clause[j as int]) <= nvars);
                }
                push_usize(out, *x + 1);
            },
            Formula::Not(b) => {
                match &**b {
                    Formula::Atom(x) => {
                        proof {
                            assert(clause[j as int] == lit_int(false, *x));
                            assert(abs_lit(clause[j as int]) <= nvars);
                        }
                        out.push('-');
                        push_usize(out, *x + 1);
                        proof {
                            assert(lit_str(clause[j as int]) =~= seq!['-'] + nat_str(
                                (*x + 1) as nat,
                            ));
                        }
                    },
                    _ => {
                        proof {
                            assert(false);
                        }
                    },
                }
            },
            _ => {
                proof {
                    assert(false);
                }
            },
        }
        out.push(' ');
        j = j + 1;
    }
    proof {
        assert(clause.subrange(clause.len() as int, clause.len() as int)
            =~= Seq::<int>::empty());
    }
    out.push('0');
    out.push('\n');
}

/// Appends the text of a whole CNF formula.
fn push_cnf(out: &mut Vec<char>, f: &Formula, Ghost(cs): Ghost<Seq<Seq<int>>>, nvars: usize)
    requires
        fml_cnf(*f) == Some(cs),
        forall|i: int, j: int|
            0 <= i < cs.len() && 0 <= j < cs[i].len() ==> 1 <= #[trigger] abs_lit(cs[i][j])
                <= nvars,
    ensures
        final(out)@ == old(out)@ + cnf_text(cs),
{
    let ghost start = out@;
    match f {
        Formula::And(args) => {
            proof {
                crate::formula::lemma_clauses_of_index(args@, cs);
            }
            let mut i: usize = 0;
            proof {
                assert(cs.subrange(0, cs.len() as int) =~= cs);
            }
            while i < args.len()
                invariant
                    i <= args@.len(),
                    args@.len() == cs.len(),
                    nvars <= usize::MAX,
                    forall|k: int| 0 <= k < cs.len() ==> crate::formula::fml_clause(
                        #[trigger] args@[k],
                    ) == Some(cs[k]),
                    forall|k: int, j: int|
                        0 <= k < cs.len() && 0 <= j < cs[k].len() ==> 1 <= #[trigger] abs_lit(
                            cs[k][j],
                        ) <= nvars,
                    start + cnf_text(cs) == out@ + cnf_text(
                        cs.subrange(i as int, cs.len() as int),
                    ),
                decreases args@.len() - i,
            {
                proof {
                    assert(cs.subrange(i as int, cs.len() as int).drop_first() =~= cs.subrange(
                        i + 1,
                        cs.len() as int,
                    ));
                }
                match &args[i] {
                    Formula::Or(lits) => {
                        push_clause(out, lits, Ghost(cs[i as int]), nvars);
                    },
                    _ => {
                        proof {
                            assert(false);
                        }
                    },
                }
                i = i + 1;
            }
            proof {
                assert(cs.subrange(cs.len() as int, cs.len() as int)
                    =~= Seq::<Seq<int>>::empty());
            }
        },
        _ => {
            proof {
                assert(false);
            }
        },
    }
}

/// A set of identifiers closed under the child relation.
pub open spec fn closed_set(nodes: Seq<Node>, s: Set<int>) -> bool {
    forall|i: int, j: int|
        s.contains(i) && 0 <= i < nodes.len() && 0 <= j < node_children(
            #[trigger] nodes[i],
        ).len() ==> s.contains(#[trigger] node_children(nodes[i])[j] as int)
}

/// The marks describe exactly the nodes reachable from the root: the root is
/// marked, marks are closed under children, and every closed set holding the
/// root holds every marked node.
pub open spec fn reach_marks(ft: FaultTree, vis: Seq<bool>) -> bool {
    &&& vis.len() == ft.nodes@.len()
    &&& vis[ft.root_id as int]
    &&& forall|i: int, j: int|
        0 <= i < vis.len() && vis[i] && 0 <= j < node_children(#[trigger] ft.nodes@[i]).len()
            ==> vis[#[trigger] node_children(ft.nodes@[i])[j] as int]
    &&& forall|s: Set<int>|
        (#[trigger] closed_set(ft.nodes@, s)) && s.contains(ft.root_id as int) ==> forall|i: int|
            0 <= i < vis.len() && vis[i] ==> s.contains(i)
}

/// How many marked nodes among the first `k` satisfy: basic event.
pub open spec fn count_marked_be(nodes: Seq<Node>, vis: Seq<bool>, k: int) -> int
    decreases k,
{
    if k <= 0 {
        0
    } else {
        count_marked_be(nodes, vis, k - 1) + if vis[k - 1] && nodes[k - 1] is BasicEvent {
            1int
        } else {
            0int
        }
    }
}

/// How many marked nodes among the first `k` are gates.
pub open spec fn count_marked_gate(nodes: Seq<Node>, vis: Seq<bool>, k: int) -> int
    decreases k,
{
    if k <= 0 {
        0
    } else {
        count_marked_gate(nodes, vis, k - 1) + if vis[k - 1] && !(nodes[k - 1] is BasicEvent) && !(
        nodes[k - 1] is PlaceHolder) {
            1int
        } else {
            0int
        }
    }
}

/// How many entries of the mark vector are set.
pub open spec fn count_true(vis: Seq<bool>, k: int) -> int
    decreases k,
{
    if k <= 0 {
        0
    } else {
        count_true(vis, k - 1) + if vis[k - 1] {
            1int
        } else {
            0int
        }
    }
}

proof fn lemma_count_true_update(vis: Seq<bool>, j: int, k: int)
    requires
        0 <= j < vis.len(),
        !vis[j],
        k <= vis.len(),
    ensures
        k <= j ==> count_true(vis.update(j, true), k) == count_true(vis, k),
        k > j ==> count_true(vis.update(j, true), k) == count_true(vis, k) + 1,
    decreases k,
{
    if k > 0 {
        lemma_count_true_update(vis, j, k - 1);
    }
}

proof fn lemma_count_true_bound(vis: Seq<bool>, k: int)
    requires
        0 <= k <= vis.len(),
    ensures
        0 <= count_true(vis, k) <= k,
    decreases k,
{
    if k > 0 {
        lemma_count_true_bound(vis, k - 1);
    }
}

proof fn lemma_count_true_missing(vis: Seq<bool>, j: int, k: int)
    requires
        0 <= j < k <= vis.len(),
        !vis[j],
    ensures
        0 <= count_true(vis, k) <= k - 1,
    decreases k,
{
    lemma_count_true_bound(vis, k);
    if k - 1 > j {
        lemma_count_true_missing(vis, j, k - 1);
    } else {
        lemma_count_true_bound(vis, k - 1);
    }
}

/// Some entry of the sequence, at or after `from`, equals `x`.
pub open spec fn in_suffix(s: Seq<usize>, from: int, x: int) -> bool {
    exists|k: int| from <= k < s.len() && #[trigger] s[k] == x
}

impl FaultTree {
    /// Marks every node reachable from the root.
    fn reach(&self) -> (vis: Vec<bool>)
        requires
            ft_wf(*self),
            ft_normalized(*self),
        ensures
            reach_marks(*self, vis@),
    {
        let n = self.nodes.len();
        let mut vis: Vec<bool> = Vec::new();
        let mut k: usize = 0;
        while k < n
            invariant
                k <= n,
                vis@.len() == k,
                forall|i: int| 0 <= i < k ==> !(#[trigger] vis@[i]),
            decreases n - k,
        {
            vis.push(false);
            k = k + 1;
        }
        let mut stack: Vec<NodeId> = Vec::new();
        let mut nmarked: usize = 1;
        proof {
            lemma_count_true_update(vis@, self.root_id as int, vis@.len() as int);
            lemma_count_true_zero(vis@, vis@.len() as int);
        }
        vis.set(self.root_id, true);
        stack.push(self.root_id);
        proof {
            assert(stack@[0] == self.root_id);
            assert(stack@.contains(self.root_id));
        }
        while stack.len() > 0
            invariant
                ft_wf(*self),
                ft_normalized(*self),
                vis@.len() == self.nodes@.len(),
                vis@[self.root_id as int],
                nmarked == count_true(vis@, vis@.len() as int),
                nmarked <= vis@.len(),
                forall|i: int| 0 <= i < stack@.len() ==> #[trigger] stack@[i] < self.nodes@.len()
                    && vis@[stack@[i] as int],
                forall|i: int, j: int|
                    0 <= i < vis@.len() && vis@[i] && !stack@.contains(i as usize) && 0 <= j
                        < node_children(#[trigger] self.nodes@[i]).len() ==> vis@[#[trigger]
                    node_children(self.nodes@[i])[j] as int],
                forall|s: Set<int>|
                    (#[trigger] closed_set(self.nodes@, s)) && s.contains(self.root_id as int)
                        ==> forall|i: int| 0 <= i < vis@.len() && vis@[i] ==> s.contains(i),
            decreases self.nodes@.len() - nmarked + stack@.len(),
        {
            let ghost pre_stack = stack@;
            let ghost pre_vis = vis@;
            let ghost pre_marked = nmarked as int;
            let v = stack.pop().unwrap();
            proof {
                assert(pre_stack[pre_stack.len() - 1] == v);
            }
            let children = self.nodes[v].children();
            let mut ci: usize = 0;
            while ci < children.len()
                invariant
                    ft_wf(*self),
                    children@ == node_children(self.nodes@[v as int]),
                    v < self.nodes@.len(),
                    ci <= children@.len(),
                    vis@.len() == self.nodes@.len(),
                    pre_vis.len() == vis@.len(),
                    pre_stack.len() >= 1,
                    vis@[self.root_id as int],
                    vis@[v as int],
                    nmarked == count_true(vis@, vis@.len() as int),
                    nmarked <= vis@.len(),
                    nmarked - pre_marked == stack@.len() - pre_stack.len() + 1,
                    stack@.len() >= pre_stack.len() - 1,
                    forall|i: int| 0 <= i < pre_vis.len() && pre_vis[i] ==> vis@[i],
                    forall|i: int| 0 <= i < stack@.len() ==> #[trigger] stack@[i]
                        < self.nodes@.len() && vis@[stack@[i] as int],
                    forall|i: int| 0 <= i < pre_stack.len() - 1 ==> pre_stack[i] == stack@[i],
                    forall|j: int| 0 <= j < ci ==> vis@[#[trigger] children@[j] as int],
                    forall|i: int, j: int|
                        0 <= i < vis@.len() && pre_vis[i] && !pre_stack.contains(i as usize) && 0
                            <= j < node_children(#[trigger] self.nodes@[i]).len() ==> vis@[
                        #[trigger] node_children(self.nodes@[i])[j] as int],
                    forall|i: int|
                        0 <= i < vis@.len() && #[trigger] vis@[i] && !pre_vis[i] ==> in_suffix(
                            stack@,
                            pre_stack.len() - 1,
                            i,
                        ),
                    forall|s: Set<int>|
                        (#[trigger] closed_set(self.nodes@, s)) && s.contains(self.root_id as int)
                            ==> forall|i: int| 0 <= i < vis@.len() && vis@[i] ==> s.contains(i),
                decreases children@.len() - ci,
            {
                let c = children[ci];
                proof {
                    assert(node_children(self.nodes@[v as int])[ci as int] == c);
                }
                if !vis[c] {
                    proof {
                        lemma_count_true_update(vis@, c as int, vis@.len() as int);
                        lemma_count_true_missing(vis@, c as int, vis@.len() as int);
                        assert forall|s: Set<int>|
                            (#[trigger] closed_set(self.nodes@, s)) && s.contains(
                                self.root_id as int,
                            ) implies forall|i: int|
                            0 <= i < vis@.update(c as int, true).len() && vis@.update(
                                c as int,
                                true,
                            )[i] ==> s.contains(i) by {
                            assert(s.contains(v as int));
                            assert(s.contains(c as int));
                        }
                    }
                    vis.set(c, true);
                    nmarked = nmarked + 1;
                    let ghost old_stack2 = stack@;
                    stack.push(c);
                    proof {
                        assert(stack@[stack@.len() - 1] == c);
                        assert forall|i: int|
                            0 <= i < vis@.len() && #[trigger] vis@[i] && !pre_vis[i] implies
                            in_suffix(stack@, pre_stack.len() - 1, i) by {
                            if i != c {
                                assert(in_suffix(old_stack2, pre_stack.len() - 1, i));
                                let kk = choose|kk: int|
                                    pre_stack.len() - 1 <= kk < old_stack2.len()
                                        && old_stack2[kk] == i;
                                assert(stack@[kk] == i);
                            }
                        }
                    }
                }
                ci = ci + 1;
            }
            proof {
                assert forall|i: int, j: int|
                    0 <= i < vis@.len() && vis@[i] && !stack@.contains(i as usize) && 0 <= j
                        < node_children(#[trigger] self.nodes@[i]).len() implies vis@[#[trigger]
                node_children(self.nodes@[i])[j] as int] by {
                    if i == v {
                    } else if pre_vis[i] {
                        if pre_stack.contains(i as usize) {
                            let kk = choose|kk: int|
                                0 <= kk < pre_stack.len() && pre_stack[kk] == i as usize;
                            if kk < pre_stack.len() - 1 {
                                assert(stack@[kk] == i as usize);
                                assert(stack@.contains(i as usize));
                            } else {
                                assert(i == v as int);
                            }
                        }
                    } else {
                        assert(in_suffix(stack@, pre_stack.len() - 1, i));
                        let kk = choose|kk: int|
                            pre_stack.len() - 1 <= kk < stack@.len() && stack@[kk] == i;
                        assert(stack@.contains(i as usize));
                    }
                }
            }
        }
        proof {
            assert forall|i: int, j: int|
                0 <= i < vis@.len() && vis@[i] && 0 <= j < node_children(
                    #[trigger] self.nodes@[i],
                ).len() implies vis@[#[trigger] node_children(self.nodes@[i])[j] as int] by {
                assert(!stack@.contains(i as usize));
            }
        }
        vis
    }
}

impl FaultTree {
    /// Counts the basic events and the gates reachable from the root, and
    /// the number of clauses the encoder will emit.
    pub fn get_info(&self) -> (r: (usize, usize, usize))
        requires
            ft_wf(*self),
            ft_normalized(*self),
        ensures
            exists|vis: Seq<bool>|
                #[trigger] reach_marks(*self, vis) && r.0 == count_marked_be(
                    self.nodes@,
                    vis,
                    self.nodes@.len() as int,
                ) && r.1 == count_marked_gate(self.nodes@, vis, self.nodes@.len() as int),
            r.2 == ft_cnf(*self).len(),
    {
        let vis = self.reach();
        let mut num_be: usize = 0;
        let mut num_gates: usize = 0;
        let mut i: usize = 0;
        while i < self.nodes.len()
            invariant
                i <= self.nodes@.len(),
                vis@.len() == self.nodes@.len(),
                num_be == count_marked_be(self.nodes@, vis@, i as int),
                num_gates == count_marked_gate(self.nodes@, vis@, i as int),
                num_be <= i,
                num_gates <= i,
            decreases self.nodes@.len() - i,
        {
            if vis[i] {
                match &self.nodes[i] {
                    Node::BasicEvent(_, _) => {
                        num_be = num_be + 1;
                    },
                    Node::PlaceHolder(_, _, _) => {},
                    _ => {
                        num_gates = num_gates + 1;
                    },
                }
            }
            i = i + 1;
        }
        let f = self.apply_tseitin();
        let ncl = match f.num_clauses() {
            Some(v) => v,
            None => 0,
        };
        proof {
            match &f {
                Formula::And(cls) => {
                    crate::formula::lemma_clauses_of_index(cls@, ft_cnf(*self));
                },
                _ => {
                    assert(false);
                },
            }
            assert(reach_marks(*self, vis@));
        }
        (num_be, num_gates, ncl)
    }

    /// Renders the weight lines: the basic events' probabilities and their
    /// complements first, then weight one for both polarities of each gate.
    fn get_weights(&self, format: &CNFFormat) -> (r: Vec<char>)
        requires
            ft_wf(*self),
            all_bes_discrete(self.nodes@),
        ensures
            r@ == be_weight_lines(
                self.nodes@,
                weight_prefix(*format),
                self.nodes@.len() as int,
            ) + gate_weight_lines(self.nodes@, weight_prefix(*format), self.nodes@.len() as int),
    {
        let prefix = weight_prefix_chars(format);
        let one = crate::dec::dec_one();
        proof {
            assert(dec_str(one) =~= seq!['1']) by {
                assert(nat_str(1) == seq![crate::strutil::digit_char(1)]);
            }
        }
        let mut be_out: Vec<char> = Vec::new();
        let mut gate_out: Vec<char> = Vec::new();
        let mut i: usize = 0;
        while i < self.nodes.len()
            invariant
                ft_wf(*self),
                all_bes_discrete(self.nodes@),
                i <= self.nodes@.len(),
                prefix@ == weight_prefix(*format),
                dec_str(one) == seq!['1'],
                dec_wf(one),
                be_out@ == be_weight_lines(self.nodes@, prefix@, i as int),
                gate_out@ == gate_weight_lines(self.nodes@, prefix@, i as int),
            decreases self.nodes@.len() - i,
        {
            match &self.nodes[i] {
                Node::BasicEvent(_, be) => {
                    match &be.dist {
                        Distribution::Discrete(p) => {
                            let compl = dec_complement(p);
                            proof {
                                assert(compl == compl_spec(*p));
                            }
                            push_weight_pair(&mut be_out, &prefix, i, p, &compl);
                        },
                        Distribution::Continuous(_) => {
                            proof {
                                assert(false);
                            }
                        },
                    }
                },
                _ => {
                    push_weight_pair(&mut gate_out, &prefix, i, &one, &one);
                },
            }
            i = i + 1;
        }
        push_all(&mut be_out, &gate_out);
        be_out
    }

    /// Produces the CNF text and the weight text of the tree.  The
    /// timepoint and the unavailability switch do not change the text here:
    /// a discrete probability is its own value at every timepoint, in both
    /// readings, and continuous laws are evaluated before encoding.
    pub fn implicit_formula(&self, format: &CNFFormat, timepoint: &Dec, unav: bool) -> (r: (
        String,
        String,
    ))
        requires
            ft_wf(*self),
            ft_normalized(*self),
            all_bes_discrete(self.nodes@),
        ensures
            r.0@ == problem_line(*format, self.nodes@.len() as nat, ft_cnf(*self).len())
                + cnf_text(ft_cnf(*self)),
            r.1@ == be_weight_lines(
                self.nodes@,
                weight_prefix(*format),
                self.nodes@.len() as int,
            ) + gate_weight_lines(self.nodes@, weight_prefix(*format), self.nodes@.len() as int),
    {
        let f = self.apply_tseitin();
        let ncl = match f.num_clauses() {
            Some(v) => v,
            None => 0,
        };
        proof {
            match &f {
                Formula::And(cls) => {
                    crate::formula::lemma_clauses_of_index(cls@, ft_cnf(*self));
                },
                _ => {
                    assert(false);
                },
            }
        }
        let mut out: Vec<char> = Vec::new();
        match format {
            CNFFormat::MC21 => {
                push_str_chars(&mut out, "p cnf ");
                proof {
                    reveal_strlit("p cnf ");
                    assert("p cnf "@ =~= seq!['p', ' ', 'c', 'n', 'f', ' ']);
                }
            },
            CNFFormat::MCC => {
                push_str_chars(&mut out, "p wcnf ");
                proof {
                    reveal_strlit("p wcnf ");
                    assert("p wcnf "@ =~= seq!['p', ' ', 'w', 'c', 'n', 'f', ' ']);
                }
            },
        }
        push_usize(&mut out, self.get_count());
        out.push(' ');
        push_usize(&mut out, ncl);
        out.push('\n');
        proof {
            lemma_ft_cnf_lits_in_range(*self);
            assert(out@ =~= problem_line(*format, self.nodes@.len() as nat, ft_cnf(*self).len()));
        }
        push_cnf(&mut out, &f, Ghost(ft_cnf(*self)), self.nodes.len());
        let weights = self.get_weights(format);
        (chars_to_string(&out), chars_to_string(&weights))
    }

    /// The CNF text with the weights appended, as one string.
    pub fn dump_cnf(&self, format: &CNFFormat, timepoint: &Dec, unav: bool) -> (r: String)
        requires
            ft_wf(*self),
            ft_normalized(*self),
            all_bes_discrete(self.nodes@),
        ensures
            r@ == problem_line(*format, self.nodes@.len() as nat, ft_cnf(*self).len()) + cnf_text(
                ft_cnf(*self),
            ) + be_weight_lines(self.nodes@, weight_prefix(*format), self.nodes@.len() as int)
                + gate_weight_lines(
                self.nodes@,
                weight_prefix(*format),
                self.nodes@.len() as int,
            ),
    {
        let (formula_cnf, weights) = self.implicit_formula(format, timepoint, unav);
        let mut out: Vec<char> = crate::strutil::str_to_chars(formula_cnf.as_str());
        push_str_chars(&mut out, weights.as_str());
        chars_to_string(&out)
    }
}

/// Appends the two weight lines of one variable: the weight of its positive
/// literal and the weight of its negative literal.
#[verifier::rlimit(100)]
#[verifier::spinoff_prover]
fn push_weight_pair(out: &mut Vec<char>, prefix: &Vec<char>, i: usize, w: &Dec, wneg: &Dec)
    requires
        i < usize::MAX,
        dec_wf(*w),
        dec_wf(*wneg),
    ensures
        final(out)@ == old(out)@ + weight_pair(prefix@, (i + 1) as nat, dec_str(*w), dec_str(*wneg)),
{
    let ghost pre = out@;
    push_all(out, prefix);
    out.push(' ');
    push_usize(out, i + 1);
    out.push(' ');
    dec_push(out, w);
    out.push(' ');
    out.push('0');
    out.push('\n');
    push_all(out, prefix);
    out.push(' ');
    out.push('-');
    push_usize(out, i + 1);
    out.push(' ');
    dec_push(out, wneg);
    out.push(' ');
    out.push('0');
    out.push('\n');
    proof {
        assert(out@ =~= pre + weight_pair(prefix@, (i + 1) as nat, dec_str(*w), dec_str(*wneg)));
    }
}

/// The weight-line prefix of the dialect, as characters.
fn weight_prefix_chars(format: &CNFFormat) -> (r: Vec<char>)
    ensures
        r@ == weight_prefix(*format),
{
    match format {
        CNFFormat::MC21 => {
            let v = crate::strutil::str_to_chars("c p weight");
            proof {
                reveal_strlit("c p weight");
                assert("c p weight"@ =~= seq!['c', ' ', 'p', ' ', 'w', 'e', 'i', 'g', 'h', 't']);
            }
            v
        },
        CNFFormat::MCC => {
            let v = crate::strutil::str_to_chars("w");
            proof {
                reveal_strlit("w");
                assert("w"@ =~= seq!['w']);
            }
            v
        },
    }
}

/// The nodes are the same up to the identity of their heap allocations:
/// same kind, same leaf payload, and the same children, by value.
pub open spec fn node_like(a: Node, b: Node) -> bool {
    &&& (match (a, b) {
        (Node::BasicEvent(n1, b1), Node::BasicEvent(n2, b2)) => n1@ == n2@ && b1 == b2,
        (Node::Not(x), Node::Not(y)) => x == y,
        (Node::And(_), Node::And(_)) => true,
        (Node::Or(_), Node::Or(_)) => true,
        (Node::Xor(_), Node::Xor(_)) => true,
        (Node::Vot(k1, _), Node::Vot(k2, _)) => k1 == k2,
        (Node::PlaceHolder(n1, o1, a1), Node::PlaceHolder(n2, o2, a2)) => n1@ == n2@ && o1@
            == o2@ && a1@.map_values(|t: String| t@) == a2@.map_values(|t: String| t@),
        _ => false,
    })
    &&& node_children(a) == node_children(b)
}

/// The nodes correspond under the renumbering: same kind, same payload for
/// leaves, and each child mapped through the table.
pub open spec fn node_corresponds(a: Node, b: Node, m: Seq<Option<NodeId>>) -> bool {
    &&& (match (a, b) {
        (Node::BasicEvent(n1, b1), Node::BasicEvent(n2, b2)) => n1@ == n2@ && b1 == b2,
        (Node::Not(_), Node::Not(_)) => true,
        (Node::And(_), Node::And(_)) => true,
        (Node::Or(_), Node::Or(_)) => true,
        (Node::Xor(_), Node::Xor(_)) => true,
        (Node::Vot(k1, _), Node::Vot(k2, _)) => k1 == k2,
        (Node::PlaceHolder(n1, o1, a1), Node::PlaceHolder(n2, o2, a2)) => n1@ == n2@ && o1@
            == o2@,
        _ => false,
    })
    &&& node_children(b).len() == node_children(a).len()
    &&& forall|x: int|
        0 <= x < node_children(a).len() ==> #[trigger] node_children(a)[x] < m.len() && m[
        node_children(a)[x] as int] == Some(node_children(b)[x])
}

/// The sum, over the first `k` nodes, of one plus the node's child count:
/// the work one full walk of the graph can take.
pub open spec fn tree_weight(nodes: Seq<Node>, k: int) -> int
    decreases k,
{
    if k <= 0 {
        0
    } else {
        tree_weight(nodes, k - 1) + node_children(nodes[k - 1]).len() + 1
    }
}

proof fn lemma_tree_weight_mono(nodes: Seq<Node>, k1: int, k2: int)
    requires
        0 <= k1 <= k2,
    ensures
        tree_weight(nodes, k1) <= tree_weight(nodes, k2),
        tree_weight(nodes, k1) >= 0,
    decreases k2,
{
    if k2 > 0 {
        if k1 == k2 {
            lemma_tree_weight_mono(nodes, 0, k1 - 1);
            if k1 > 0 {
                lemma_tree_weight_mono(nodes, k1 - 1, k1 - 1);
            }
        } else {
            lemma_tree_weight_mono(nodes, k1, k2 - 1);
        }
    }
}

/// The remaining walk potential: the weight of the nodes not yet copied.
pub open spec fn walk_pot(nodes: Seq<Node>, m: Seq<Option<NodeId>>, k: int) -> int
    decreases k,
{
    if k <= 0 {
        0
    } else {
        walk_pot(nodes, m, k - 1) + if m[k - 1] is None {
            node_children(nodes[k - 1]).len() + 1
        } else {
            0
        }
    }
}

proof fn lemma_walk_pot_le_weight(nodes: Seq<Node>, m: Seq<Option<NodeId>>, k: int)
    ensures
        0 <= walk_pot(nodes, m, k) <= tree_weight(nodes, k),
    decreases k,
{
    if k > 0 {
        lemma_walk_pot_le_weight(nodes, m, k - 1);
    }
}

proof fn lemma_walk_pot_update(nodes: Seq<Node>, m: Seq<Option<NodeId>>, j: int, v: NodeId, k: int)
    requires
        0 <= j < m.len(),
        m[j] is None,
        k <= m.len(),
    ensures
        k <= j ==> walk_pot(nodes, m.update(j, Some(v)), k) == walk_pot(nodes, m, k),
        k > j ==> walk_pot(nodes, m.update(j, Some(v)), k) == walk_pot(nodes, m, k)
            - node_children(nodes[j]).len() - 1,
    decreases k,
{
    if k > 0 {
        lemma_walk_pot_update(nodes, m, j, v, k - 1);
    }
}

/// How many entries of the mapping are set, among the first `k`.
pub open spec fn count_some(m: Seq<Option<NodeId>>, k: int) -> int
    decreases k,
{
    if k <= 0 {
        0
    } else {
        count_some(m, k - 1) + if m[k - 1] is Some {
            1int
        } else {
            0int
        }
    }
}

proof fn lemma_count_some_update(m: Seq<Option<NodeId>>, j: int, v: NodeId, k: int)
    requires
        0 <= j < m.len(),
        m[j] is None,
        k <= m.len(),
    ensures
        k <= j ==> count_some(m.update(j, Some(v)), k) == count_some(m, k),
        k > j ==> count_some(m.update(j, Some(v)), k) == count_some(m, k) + 1,
    decreases k,
{
    if k > 0 {
        lemma_count_some_update(m, j, v, k - 1);
    }
}

proof fn lemma_count_some_missing(m: Seq<Option<NodeId>>, j: int, k: int)
    requires
        0 <= j < k <= m.len(),
        m[j] is None,
    ensures
        0 <= count_some(m, k) <= k - 1,
    decreases k,
{
    if k - 1 > j {
        lemma_count_some_missing(m, j, k - 1);
    } else {
        lemma_count_some_zero_bound(m, k - 1);
    }
}

proof fn lemma_count_some_none(m: Seq<Option<NodeId>>, k: int)
    requires
        forall|i: int| 0 <= i < k ==> (#[trigger] m[i]) is None,
    ensures
        count_some(m, k) == 0,
    decreases k,
{
    if k > 0 {
        lemma_count_some_none(m, k - 1);
    }
}

proof fn lemma_count_some_zero_bound(m: Seq<Option<NodeId>>, k: int)
    ensures
        0 <= count_some(m, k) <= if k >= 0 {
            k
        } else {
            0
        },
    decreases k,
{
    if k > 0 {
        lemma_count_some_zero_bound(m, k - 1);
    }
}

/// The extracted tree is a renumbered copy of the part of the original
/// reachable from the chosen root: the table maps exactly the nodes the
/// chosen root reaches, one to one, preserving kind, payload and edges.
pub open spec fn subtree_rel(
    orig: FaultTree,
    sub: FaultTree,
    root: NodeId,
    m: Seq<Option<NodeId>>,
) -> bool {
    &&& m.len() == orig.nodes@.len()
    &&& root < m.len() && m[root as int] == Some(sub.root_id)
    &&& forall|i: int|
        0 <= i < m.len() ==> (#[trigger] m[i] matches Some(j) ==> j < sub.nodes@.len()
            && node_corresponds(orig.nodes@[i], sub.nodes@[j as int], m))
    &&& forall|j: int| 0 <= j < sub.nodes@.len() ==> #[trigger] has_preimage(m, j)
    &&& forall|i1: int, i2: int|
        0 <= i1 < m.len() && 0 <= i2 < m.len() && m[i1] is Some && #[trigger] m[i1] == #[trigger]
        m[i2] ==> i1 == i2
    &&& forall|s: Set<int>|
        (#[trigger] closed_set(orig.nodes@, s)) && s.contains(root as int) ==> forall|i: int|
            0 <= i < m.len() && m[i] is Some ==> s.contains(i)
}

/// Some entry of the mapping points at the copied identifier.
pub open spec fn has_preimage(m: Seq<Option<NodeId>>, j: int) -> bool {
    exists|i: int| 0 <= i < m.len() && #[trigger] m[i] == Some(j as NodeId)
}

/// Copies one node.
pub fn clone_node(n: &Node) -> (r: Node)
    ensures
        node_like(*n, r),
{
    match n {
        Node::BasicEvent(name, be) => Node::BasicEvent(
            name.clone(),
            BasicEvent { dist: clone_dist(&be.dist), repair_mode: clone_rm(&be.repair_mode) },
        ),
        Node::Not(a) => Node::Not(*a),
        Node::And(v) => Node::And(copy_ids(v)),
        Node::Or(v) => Node::Or(copy_ids(v)),
        Node::Xor(v) => Node::Xor(copy_ids(v)),
        Node::Vot(k, v) => Node::Vot(*k, copy_ids(v)),
        Node::PlaceHolder(name, op, args) => Node::PlaceHolder(
            name.clone(),
            op.clone(),
            clone_names(args),
        ),
    }
}

fn clone_dist(d: &Distribution) -> (r: Distribution)
    ensures
        r == *d,
{
    match d {
        Distribution::Continuous(l) => Distribution::Continuous(l.clone()),
        Distribution::Discrete(p) => Distribution::Discrete(p.clone()),
    }
}

fn clone_rm(r0: &Option<crate::nodes::RepairMode>) -> (r: Option<crate::nodes::RepairMode>)
    ensures
        r == *r0,
{
    match r0 {
        None => None,
        Some(crate::nodes::RepairMode::Monitored(m)) => Some(
            crate::nodes::RepairMode::Monitored(m.clone()),
        ),
        Some(crate::nodes::RepairMode::PeriodicallyTested(t, tr)) => Some(
            crate::nodes::RepairMode::PeriodicallyTested(t.clone(), tr.clone()),
        ),
    }
}

fn clone_names(v: &Vec<String>) -> (r: Vec<String>)
    ensures
        r@.len() == v@.len(),
        forall|i: int| 0 <= i < v@.len() ==> #[trigger] r@[i] == v@[i],
        r@.map_values(|t: String| t@) == v@.map_values(|t: String| t@),
{
    let mut out: Vec<String> = Vec::new();
    let mut i: usize = 0;
    while i < v.len()
        invariant
            i <= v@.len(),
            out@ == v@.subrange(0, i as int),
        decreases v@.len() - i,
    {
        let c = v[i].clone();
        proof {
            assert(c == v@[i as int]);
        }
        out.push(c);
        proof {
            assert(v@.subrange(0, i as int).push(v@[i as int]) =~= v@.subrange(0, i + 1));
        }
        i = i + 1;
    }
    proof {
        assert(v@.subrange(0, v@.len() as int) =~= v@);
        assert(out@ == v@);
        assert(out@.map_values(|t: String| t@) =~= v@.map_values(|t: String| t@));
    }
    out
}

impl FaultTree {
    /// Builds a tree from the declaration lines: parsing, the optional
    /// single-child simplification, and placeholder resolution.
    pub fn new_from_lines(lines: &Vec<String>, simplify: bool, negate_or: bool) -> (r: Result<
        FaultTree,
        FtError,
    >)
        ensures
            r matches Ok(ft) ==> ft_wf(ft) && ft_normalized(ft) && ft.negate_or == negate_or,
            r matches Ok(ft) ==> exists|
                tbl: Seq<(String, NodeId)>,
                mid1: Seq<Node>,
                m: Seq<(String, String)>,
                mid2: Seq<Node>,
            |
                #![trigger staged_nodes(lines@, simplify, Seq::<Node>::empty(), mid1, m, mid2), lookup_spec(tbl, vrewritten(mapper_fold(lines@, lines@.len() as int, simplify), root_name_fold(lines@, lines@.len() as int, simplify)))]
                {
                    &&& tbl.map_values(|e: (String, NodeId)| e.0@) == names_fold(
                        lines@,
                        lines@.len() as int,
                        simplify,
                    )
                    &&& forall|k: int| 0 <= k < tbl.len() ==> (#[trigger] tbl[k]).1 == k
                    &&& staged_nodes(lines@, simplify, Seq::<Node>::empty(), mid1, m, mid2)
                    &&& ft.nodes@.len() >= mid2.len()
                    &&& forall|i: int|
                        0 <= i < mid2.len() ==> ph_resolved(
                            tbl,
                            mid2[i],
                            #[trigger] ft.nodes@[i],
                            ft.nodes@,
                            mid2.len() as int,
                            false,
                        )
                    &&& lookup_spec(
                        tbl,
                        vrewritten(
                            mapper_fold(lines@, lines@.len() as int, simplify),
                            root_name_fold(lines@, lines@.len() as int, simplify),
                        ),
                    ) == Some(ft.root_id)
                },
            r is Err ==> {
                ||| !lines_ok(
                    Seq::<Seq<char>>::empty(),
                    0,
                    lines@,
                    lines@.len() as int,
                    simplify,
                )
                ||| (simplify && exists|m: Seq<(String, String)>| #[trigger] chains_blocked(
                    lines@,
                    m,
                ))
                ||| exists|
                    tbl: Seq<(String, NodeId)>,
                    mid1: Seq<Node>,
                    m: Seq<(String, String)>,
                    mid2: Seq<Node>,
                    i: int,
                |
                    #![trigger staged_nodes(lines@, simplify, Seq::<Node>::empty(), mid1, m, mid2), ph_plan_ok(tbl, mid2[i], false)]
                    {
                        &&& tbl.map_values(|e: (String, NodeId)| e.0@) == names_fold(
                            lines@,
                            lines@.len() as int,
                            simplify,
                        )
                        &&& forall|k: int| 0 <= k < tbl.len() ==> (#[trigger] tbl[k]).1 == k
                        &&& staged_nodes(lines@, simplify, Seq::<Node>::empty(), mid1, m, mid2)
                        &&& 0 <= i < mid2.len()
                        &&& !ph_plan_ok(tbl, mid2[i], false)
                    }
                ||| exists|mid1: Seq<Node>, m: Seq<(String, String)>, mid2: Seq<Node>, i: int|
                    #![trigger staged_nodes(lines@, simplify, Seq::<Node>::empty(), mid1, m, mid2), mid2[i]]
                    staged_nodes(lines@, simplify, Seq::<Node>::empty(), mid1, m, mid2) && 0 <= i
                        < mid2.len() && crate::fault_tree_normalizer::expanding_ph(mid2[i])
                ||| exists|tbl: Seq<(String, NodeId)>|
                    #![trigger lookup_spec(tbl, vrewritten(mapper_fold(lines@, lines@.len() as int, simplify), root_name_fold(lines@, lines@.len() as int, simplify)))]
                    {
                        &&& tbl.map_values(|e: (String, NodeId)| e.0@) == names_fold(
                            lines@,
                            lines@.len() as int,
                            simplify,
                        )
                        &&& forall|k: int| 0 <= k < tbl.len() ==> (#[trigger] tbl[k]).1 == k
                        &&& lookup_spec(
                            tbl,
                            vrewritten(
                                mapper_fold(lines@, lines@.len() as int, simplify),
                                root_name_fold(lines@, lines@.len() as int, simplify),
                            ),
                        ) is None
                    }
            },
    {
        let mut norm = crate::fault_tree_normalizer::FaultTreeNormalizer::new();
        let ghost base = norm;
        match norm.read_from_lines(lines, simplify) {
            Ok(_) => {},
            Err(e) => {
                proof {
                    assert(base.lookup_table@.map_values(|e2: (String, NodeId)| e2.0@)
                        =~= Seq::<Seq<char>>::empty());
                    assert(base.nodes@ =~= Seq::<Node>::empty());
                    if !lines_ok(
                        Seq::<Seq<char>>::empty(),
                        0,
                        lines@,
                        lines@.len() as int,
                        simplify,
                    ) {
                    } else if simplify && exists|m: Seq<(String, String)>|
                        #[trigger] chains_blocked(lines@, m) {
                    } else if crate::fault_tree_normalizer::table_tied(
                        base,
                        norm,
                        lines@,
                        simplify,
                    ) {
                        assert(norm.lookup_table@.map_values(|e2: (String, NodeId)| e2.0@)
                            =~= Seq::<Seq<char>>::empty() + names_fold(
                            lines@,
                            lines@.len() as int,
                            simplify,
                        ));
                        assert(Seq::<Seq<char>>::empty() + names_fold(
                            lines@,
                            lines@.len() as int,
                            simplify,
                        ) =~= names_fold(lines@, lines@.len() as int, simplify));
                    }
                }
                return Err(e);
            },
        }
        proof {
            assert(base.lookup_table@.map_values(|e2: (String, NodeId)| e2.0@)
                =~= Seq::<Seq<char>>::empty());
            assert(base.nodes@ =~= Seq::<Node>::empty());
            assert(norm.lookup_table@.map_values(|e2: (String, NodeId)| e2.0@)
                =~= Seq::<Seq<char>>::empty() + names_fold(lines@, lines@.len() as int, simplify));
            assert(Seq::<Seq<char>>::empty() + names_fold(lines@, lines@.len() as int, simplify)
                =~= names_fold(lines@, lines@.len() as int, simplify));
        }
        Ok(
            FaultTree {
                nodes: norm.nodes,
                root_id: norm.root_id,
                node_counter: norm.node_counter,
                negate_or,
            },
        )
    }

    /// Finds the modules of the tree.
    pub fn modularize_ft(&self) -> (r: Result<Vec<NodeId>, FtError>)
        requires
            ft_wf(*self),
            ft_normalized(*self),
        ensures
            r matches Ok(ids) ==> {
                &&& forall|i: int| 0 <= i < ids@.len() ==> #[trigger] ids@[i] < self.nodes@.len()
                &&& forall|i: int| 0 <= i < ids@.len() ==> #[trigger] ids@[i] != self.root_id
                &&& forall|i: int|
                    0 <= i < ids@.len() ==> node_children(
                        self.nodes@[#[trigger] ids@[i] as int],
                    ).len() > 0
                &&& forall|i: int, j: int| 0 <= i < j < ids@.len() ==> ids@[i] < ids@[j]
                &&& exists|f1: nat, f2: nat, recs2: Seq<crate::modularizer::DFSNode>|
                    #[trigger] crate::modularizer::passes_yield(
                        self.nodes@,
                        self.root_id,
                        f1,
                        f2,
                        recs2,
                    ) && ids@ == crate::modularizer::gather_spec(
                        self.nodes@,
                        recs2,
                        self.root_id,
                        self.nodes@.len() as int,
                    )
                &&& ids@ == crate::modularizer::gather_spec(
                    self.nodes@,
                    crate::modularizer::modules_result(self.nodes@, self.root_id)->Some_0,
                    self.root_id,
                    self.nodes@.len() as int,
                )
            },
            r is Ok <==> crate::modularizer::modules_result(self.nodes@, self.root_id) is Some,
    {
        crate::modularizer::get_modules(self)
    }

    /// Replaces one solved module by a synthetic basic event carrying the
    /// module's probability.
    pub fn replace_one_module(&mut self, mod_id: NodeId, tep: Dec)
        requires
            ft_wf(*old(self)),
            ft_normalized(*old(self)),
            mod_id < old(self).nodes@.len(),
            dec_wf(tep),
            dec_is_prob(tep),
        ensures
            ft_wf(*final(self)),
            ft_normalized(*final(self)),
            final(self).nodes@.len() == old(self).nodes@.len(),
            forall|i: int|
                0 <= i < old(self).nodes@.len() && i != mod_id ==> final(self).nodes@[i] == old(
                    self,
                ).nodes@[i],
            final(self).nodes@[mod_id as int] matches Node::BasicEvent(nm, be) && nm@
                == "repl_node_"@ + nat_str(mod_id as nat) && be.dist == Distribution::Discrete(tep)
                && be.repair_mode is None,
            final(self).root_id == old(self).root_id,
            final(self).negate_or == old(self).negate_or,
    {
        let node = replacement_event(mod_id, tep);
        self.update_root(node, mod_id);
    }

    /// Extracts the subtree under the given root as an independent tree
    /// with fresh, dense identifiers.
    #[verifier::rlimit(100)]
    #[verifier::spinoff_prover]
    pub fn subtree_with_root(&self, new_root_id: NodeId) -> (r: Result<FaultTree, FtError>)
        requires
            ft_wf(*self),
            ft_normalized(*self),
            new_root_id < self.nodes@.len(),
        ensures
            r matches Ok(sub) ==> {
                &&& ft_wf(sub)
                &&& ft_normalized(sub)
                &&& !sub.negate_or
                &&& exists|m: Seq<Option<NodeId>>| subtree_rel(*self, sub, new_root_id, m)
            },
            r is Err <==> tree_weight(self.nodes@, self.nodes@.len() as int) + 1 > u128::MAX,
    {
        let n = self.nodes.len();
        let mut sub = FaultTree::empty();
        let mut mapper: Vec<Option<NodeId>> = Vec::new();
        let mut k: usize = 0;
        while k < n
            invariant
                k <= n,
                mapper@.len() == k,
                forall|i: int| 0 <= i < k ==> (#[trigger] mapper@[i]) is None,
            decreases n - k,
        {
            mapper.push(None);
            k = k + 1;
        }
        let mut stack: Vec<NodeId> = Vec::new();
        stack.push(new_root_id);
        proof {
            assert(stack@[0] == new_root_id);
            assert(stack@.contains(new_root_id));
        }
        // enough fuel for one full walk; only a weight beyond the machine
        // range is refused
        let mut fuel: u128 = 1;
        let mut e: usize = 0;
        while e < n
            invariant
                e <= n,
                n == self.nodes@.len(),
                ft_wf(*self),
                ft_normalized(*self),
                fuel == 1 + tree_weight(self.nodes@, e as int),
            decreases n - e,
        {
            let cl = self.nodes[e].children().len();
            let step = match fuel.checked_add(cl as u128) {
                Some(v) => match v.checked_add(1) {
                    Some(w) => w,
                    None => {
                        proof {
                            lemma_tree_weight_mono(self.nodes@, e + 1, n as int);
                        }
                        return Err(FtError::Structure(String::from_str("tree too large")));
                    },
                },
                None => {
                    proof {
                        lemma_tree_weight_mono(self.nodes@, e + 1, n as int);
                    }
                    return Err(FtError::Structure(String::from_str("tree too large")));
                },
            };
            fuel = step;
            e = e + 1;
        }
        proof {
            lemma_walk_pot_le_weight(self.nodes@, mapper@, n as int);
            lemma_count_some_none(mapper@, n as int);
            assert(tree_weight(self.nodes@, n as int) + 1 <= u128::MAX);
        }
        while stack.len() > 0
            invariant
                n == self.nodes@.len(),
                ft_wf(*self),
                ft_normalized(*self),
                new_root_id < n,
                mapper@.len() == n,
                sub.node_counter == sub.nodes@.len(),
                sub.nodes@.len() == count_some(mapper@, n as int),
                !sub.negate_or,
                fuel >= stack@.len() + walk_pot(self.nodes@, mapper@, n as int),
                forall|i: int| 0 <= i < stack@.len() ==> #[trigger] stack@[i] < n,
                forall|i: int|
                    0 <= i < n ==> (#[trigger] mapper@[i] matches Some(j) ==> j
                        < sub.nodes@.len() && node_like(self.nodes@[i], sub.nodes@[j as int])),
                forall|j: int| 0 <= j < sub.nodes@.len() ==> #[trigger] has_preimage(
                    mapper@,
                    j,
                ),
                forall|i1: int, i2: int|
                    0 <= i1 < n && 0 <= i2 < n && mapper@[i1] is Some && #[trigger] mapper@[i1]
                        == #[trigger] mapper@[i2] ==> i1 == i2,
                forall|i: int, x: int|
                    0 <= i < n && mapper@[i] is Some && 0 <= x < node_children(
                        #[trigger] self.nodes@[i],
                    ).len() ==> mapper@[node_children(self.nodes@[i])[x] as int] is Some
                        || stack@.contains(#[trigger] node_children(self.nodes@[i])[x]),
                mapper@[new_root_id as int] is Some || stack@.contains(new_root_id),
                forall|s: Set<int>|
                    (#[trigger] closed_set(self.nodes@, s)) && s.contains(new_root_id as int)
                        ==> forall|i: int| 0 <= i < n && mapper@[i] is Some ==> s.contains(i),
                forall|s: Set<int>|
                    (#[trigger] closed_set(self.nodes@, s)) && s.contains(new_root_id as int)
                        ==> forall|i: int| 0 <= i < stack@.len() ==> s.contains(
                        #[trigger] stack@[i] as int,
                    ),
            decreases fuel,
        {
            proof {
                lemma_walk_pot_le_weight(self.nodes@, mapper@, n as int);
            }
            fuel = fuel - 1;
            let ghost pre_stack = stack@;
            let nid = stack.pop().unwrap();
            proof {
                assert(pre_stack[pre_stack.len() - 1] == nid);
            }
            if mapper[nid].is_some() {
                proof {
                    lemma_stack_shrink(pre_stack, stack@, nid as int, mapper@, n as int,
                        new_root_id as int, self.nodes@);
                    assert forall|s: Set<int>|
                        (#[trigger] closed_set(self.nodes@, s)) && s.contains(
                            new_root_id as int,
                        ) implies forall|i: int|
                        0 <= i < stack@.len() ==> s.contains(#[trigger] stack@[i] as int) by {
                        assert forall|i: int|
                            0 <= i < stack@.len() implies s.contains(
                            #[trigger] stack@[i] as int,
                        ) by {
                            assert(pre_stack[i] == stack@[i]);
                            assert(s.contains(pre_stack[i] as int));
                        }
                    }
                }
                continue ;
            }
            let node = clone_node(&self.nodes[nid]);
            let children = self.nodes[nid].children();
            proof {
                // the copy always has room: the popped node is not mapped yet
                lemma_count_some_missing(mapper@, nid as int, n as int);
            }
            let new_nid = sub.new_id();
            let ghost pre_mapper = mapper@;
            mapper.set(nid, Some(new_nid));
            sub.add_node(node, new_nid);
            proof {
                lemma_count_some_update(pre_mapper, nid as int, new_nid, n as int);
                lemma_walk_pot_update(self.nodes@, pre_mapper, nid as int, new_nid, n as int);
                assert(node_like(self.nodes@[nid as int], sub.nodes@[new_nid as int]));
                assert forall|j: int|
                    0 <= j < sub.nodes@.len() implies #[trigger] has_preimage(mapper@, j) by {
                    if j < new_nid {
                        assert(has_preimage(pre_mapper, j));
                        let i0 = choose|i0: int|
                            0 <= i0 < pre_mapper.len() && #[trigger] pre_mapper[i0] == Some(
                                j as NodeId,
                            );
                        assert(i0 != nid);
                        assert(mapper@[i0] == Some(j as NodeId));
                    } else {
                        assert(mapper@[nid as int] == Some(j as NodeId));
                    }
                }
                assert forall|i1: int, i2: int|
                    0 <= i1 < n && 0 <= i2 < n && mapper@[i1] is Some && #[trigger] mapper@[i1]
                        == #[trigger] mapper@[i2] implies i1 == i2 by {
                    if i1 != i2 {
                        if i1 == nid as int {
                            assert(pre_mapper[i2] is Some ==> pre_mapper[i2]->Some_0 < new_nid);
                        } else if i2 == nid as int {
                            assert(pre_mapper[i1] is Some ==> pre_mapper[i1]->Some_0 < new_nid);
                        }
                    }
                }
                // the popped entry's obligations transfer to the shrunken stack
                assert forall|i: int, x: int|
                    0 <= i < n && i != nid && mapper@[i] is Some && 0 <= x < node_children(
                        #[trigger] self.nodes@[i],
                    ).len() implies mapper@[node_children(self.nodes@[i])[x] as int] is Some
                    || stack@.contains(#[trigger] node_children(self.nodes@[i])[x]) by {
                    let c = node_children(self.nodes@[i])[x];
                    if !(mapper@[c as int] is Some) {
                        assert(pre_mapper[c as int] is None);
                        assert(pre_stack.contains(c));
                        let w = choose|w: int| 0 <= w < pre_stack.len() && pre_stack[w] == c;
                        if w == pre_stack.len() - 1 {
                            assert(c == nid);
                            assert(mapper@[c as int] is Some);
                        } else {
                            assert(stack@[w] == c);
                            assert(stack@.contains(c));
                        }
                    }
                }
                if !(mapper@[new_root_id as int] is Some) {
                    assert(pre_stack.contains(new_root_id));
                    let w = choose|w: int|
                        0 <= w < pre_stack.len() && pre_stack[w] == new_root_id;
                    if w == pre_stack.len() - 1 {
                        assert(new_root_id == nid);
                        assert(false);
                    } else {
                        assert(stack@[w] == new_root_id);
                        assert(stack@.contains(new_root_id));
                    }
                }
                // the freshly mapped node sits in every closed superset
                assert forall|s: Set<int>|
                    (#[trigger] closed_set(self.nodes@, s)) && s.contains(new_root_id as int)
                        implies forall|i: int|
                    0 <= i < n && mapper@[i] is Some ==> s.contains(i) by {
                    assert forall|i: int|
                        0 <= i < n && mapper@[i] is Some implies s.contains(i) by {
                        if i == nid as int {
                            assert(s.contains(pre_stack[pre_stack.len() - 1] as int));
                        } else {
                            assert(pre_mapper[i] is Some);
                        }
                    }
                }
                assert forall|s: Set<int>|
                    (#[trigger] closed_set(self.nodes@, s)) && s.contains(new_root_id as int)
                        implies forall|i: int|
                    0 <= i < stack@.len() ==> s.contains(#[trigger] stack@[i] as int) by {
                    assert forall|i: int|
                        0 <= i < stack@.len() implies s.contains(#[trigger] stack@[i] as int) by {
                        assert(pre_stack[i] == stack@[i]);
                        assert(s.contains(pre_stack[i] as int));
                    }
                }
            }
            let ghost mid_stack = stack@;
            let mut ci: usize = 0;
            while ci < children.len()
                invariant
                    ci <= children@.len(),
                    n == self.nodes@.len(),
                    children@ == node_children(self.nodes@[nid as int]),
                    nid < n,
                    ft_wf(*self),
                    ft_normalized(*self),
                    new_root_id < n,
                    mapper@.len() == n,
                    sub.node_counter == sub.nodes@.len(),
                    !sub.negate_or,
                    mapper@[nid as int] is Some,
                    forall|i: int| 0 <= i < stack@.len() ==> #[trigger] stack@[i] < n,
                    forall|i: int|
                        0 <= i < n ==> (#[trigger] mapper@[i] matches Some(j) ==> j
                            < sub.nodes@.len() && node_like(self.nodes@[i], sub.nodes@[j as int])),
                    forall|j: int| 0 <= j < sub.nodes@.len() ==> #[trigger] has_preimage(
                        mapper@,
                        j,
                    ),
                    forall|i1: int, i2: int|
                        0 <= i1 < n && 0 <= i2 < n && mapper@[i1] is Some && #[trigger] mapper@[i1]
                            == #[trigger] mapper@[i2] ==> i1 == i2,
                    forall|i: int, x: int|
                        0 <= i < n && i != nid && mapper@[i] is Some && 0 <= x < node_children(
                            #[trigger] self.nodes@[i],
                        ).len() ==> mapper@[node_children(self.nodes@[i])[x] as int] is Some
                            || stack@.contains(#[trigger] node_children(self.nodes@[i])[x]),
                    forall|x: int|
                        0 <= x < ci ==> mapper@[#[trigger] children@[x] as int] is Some
                            || stack@.contains(children@[x]),
                    mapper@[new_root_id as int] is Some || stack@.contains(new_root_id),
                    sub.nodes@.len() == count_some(mapper@, n as int),
                    fuel >= stack@.len() + walk_pot(self.nodes@, mapper@, n as int) + (
                    children@.len() - ci),
                    forall|s: Set<int>|
                        (#[trigger] closed_set(self.nodes@, s)) && s.contains(
                            new_root_id as int,
                        ) ==> forall|i: int| 0 <= i < n && mapper@[i] is Some ==> s.contains(i),
                    forall|s: Set<int>|
                        (#[trigger] closed_set(self.nodes@, s)) && s.contains(
                            new_root_id as int,
                        ) ==> forall|i: int| 0 <= i < stack@.len() ==> s.contains(
                            #[trigger] stack@[i] as int,
                        ),
                decreases children@.len() - ci,
            {
                let ghost before = stack@;
                if mapper[children[ci]].is_none() {
                    stack.push(children[ci]);
                    proof {
                        lemma_push_keeps_contains(before, stack@, children@[ci as int]);
                        assert forall|s: Set<int>|
                            (#[trigger] closed_set(self.nodes@, s)) && s.contains(
                                new_root_id as int,
                            ) implies forall|i: int|
                            0 <= i < stack@.len() ==> s.contains(#[trigger] stack@[i] as int) by {
                            assert forall|i: int|
                                0 <= i < stack@.len() implies s.contains(
                                #[trigger] stack@[i] as int,
                            ) by {
                                if i < before.len() {
                                    assert(before[i] == stack@[i]);
                                    assert(s.contains(before[i] as int));
                                } else {
                                    assert(stack@[i] == children@[ci as int]);
                                    assert(s.contains(nid as int));
                                    assert(s.contains(
                                        node_children(self.nodes@[nid as int])[ci as int] as int,
                                    ));
                                }
                            }
                        }
                    }
                }
                ci = ci + 1;
            }
            proof {
                // the invariant on the popped node's own children is now direct
                assert forall|i: int, x: int|
                    0 <= i < n && mapper@[i] is Some && 0 <= x < node_children(
                        #[trigger] self.nodes@[i],
                    ).len() implies mapper@[node_children(self.nodes@[i])[x] as int] is Some
                    || stack@.contains(#[trigger] node_children(self.nodes@[i])[x]) by {
                    if i == nid as int {
                        assert(mapper@[children@[x] as int] is Some || stack@.contains(
                            children@[x],
                        ));
                    }
                }
            }
        }
        // every reached node is copied; rewrite the copied edges
        let ghost before_rewrite = sub.nodes@;
        let mut j: usize = 0;
        while j < sub.nodes.len()
            invariant
                n == self.nodes@.len(),
                ft_wf(*self),
                ft_normalized(*self),
                mapper@.len() == n,
                new_root_id < n,
                sub.node_counter == sub.nodes@.len(),
                !sub.negate_or,
                j <= sub.nodes@.len(),
                forall|i: int|
                    0 <= i < n ==> (#[trigger] mapper@[i] matches Some(jj) ==> jj
                        < sub.nodes@.len()),
                forall|i: int|
                    0 <= i < n ==> (#[trigger] mapper@[i] matches Some(jj) ==> (jj >= j
                        ==> node_like(self.nodes@[i], sub.nodes@[jj as int]))),
                forall|i: int|
                    0 <= i < n ==> (#[trigger] mapper@[i] matches Some(jj) ==> (jj < j
                        ==> node_corresponds(self.nodes@[i], sub.nodes@[jj as int], mapper@))),
                forall|jj: int| 0 <= jj < sub.nodes@.len() ==> #[trigger] has_preimage(
                    mapper@,
                    jj,
                ),
                forall|i1: int, i2: int|
                    0 <= i1 < n && 0 <= i2 < n && mapper@[i1] is Some && #[trigger] mapper@[i1]
                        == #[trigger] mapper@[i2] ==> i1 == i2,
                forall|i: int, x: int|
                    0 <= i < n && mapper@[i] is Some && 0 <= x < node_children(
                        #[trigger] self.nodes@[i],
                    ).len() ==> mapper@[#[trigger] node_children(self.nodes@[i])[x] as int]
                        is Some,
                mapper@[new_root_id as int] is Some,
                forall|s: Set<int>|
                    (#[trigger] closed_set(self.nodes@, s)) && s.contains(new_root_id as int)
                        ==> forall|i: int| 0 <= i < n && mapper@[i] is Some ==> s.contains(i),
            decreases sub.nodes@.len() - j,
        {
            proof {
                assert(has_preimage(mapper@, j as int));
            }
            let ghost origin = choose|i: int|
                0 <= i < mapper@.len() && #[trigger] mapper@[i] == Some(j as NodeId);
            let mut nd = clone_node(&sub.nodes[j]);
            proof {
                assert(node_like(self.nodes@[origin], nd));
                assert(node_children(nd) == node_children(self.nodes@[origin]));
                assert forall|x: int|
                    0 <= x < node_children(nd).len() implies #[trigger] node_children(nd)[x]
                    < mapper@.len() && mapper@[node_children(nd)[x] as int] is Some by {
                    assert(node_children(self.nodes@[origin])[x] < n);
                }
            }
            nd.map_to_args(&mapper);
            sub.update_root(nd, j);
            proof {
                assert(node_corresponds(self.nodes@[origin], sub.nodes@[j as int], mapper@));
                assert forall|i: int|
                    0 <= i < n implies (#[trigger] mapper@[i] matches Some(jj) ==> (jj < j + 1
                        ==> node_corresponds(self.nodes@[i], sub.nodes@[jj as int], mapper@))) by {
                    if mapper@[i] is Some {
                        let jj = mapper@[i]->Some_0;
                        if jj == j {
                            assert(mapper@[i] == Some(j as NodeId));
                            assert(i == origin);
                        }
                    }
                }
            }
            j = j + 1;
        }
        match mapper[new_root_id] {
            Some(rid) => {
                sub.root_id = rid;
                proof {
                    assert forall|i: int, x: int|
                        0 <= i < sub.nodes@.len() && 0 <= x < node_children(
                            #[trigger] sub.nodes@[i],
                        ).len() implies #[trigger] node_children(sub.nodes@[i])[x]
                        < sub.nodes@.len() by {
                        assert(has_preimage(mapper@, i));
                        let oi = choose|oi: int|
                            0 <= oi < mapper@.len() && #[trigger] mapper@[oi] == Some(
                                i as NodeId,
                            );
                        assert(node_corresponds(self.nodes@[oi], sub.nodes@[i], mapper@));
                        assert(mapper@[node_children(self.nodes@[oi])[x] as int] == Some(
                            node_children(sub.nodes@[i])[x],
                        ));
                    }
                    assert forall|i: int|
                        0 <= i < sub.nodes@.len() implies !((#[trigger] sub.nodes@[i])
                        is PlaceHolder) && !(sub.nodes@[i] is Vot) && (sub.nodes@[i] matches
                        Node::BasicEvent(_, be) ==> be_wf(be)) by {
                        assert(has_preimage(mapper@, i));
                        let oi = choose|oi: int|
                            0 <= oi < mapper@.len() && #[trigger] mapper@[oi] == Some(
                                i as NodeId,
                            );
                        assert(node_corresponds(self.nodes@[oi], sub.nodes@[i], mapper@));
                    }
                    assert(subtree_rel(*self, sub, new_root_id, mapper@));
                    assert(exists|m: Seq<Option<NodeId>>|
                        #[trigger] subtree_rel(*self, sub, new_root_id, m));
                    assert(ft_wf(sub));
                    assert(ft_normalized(sub));
                }
                Ok(sub)
            },
            None => {
                proof {
                    assert(false);
                }
                Err(FtError::Encoding)
            },
        }
    }
}

/// Pushing onto a stack keeps every earlier member and adds the new one.
proof fn lemma_push_keeps_contains(before: Seq<NodeId>, now: Seq<NodeId>, x: NodeId)
    requires
        now == before.push(x),
    ensures
        now.contains(x),
        forall|y: NodeId| before.contains(y) ==> now.contains(y),
{
    assert(now[now.len() - 1] == x);
    assert forall|y: NodeId| before.contains(y) implies now.contains(y) by {
        let w = choose|w: int| 0 <= w < before.len() && before[w] == y;
        assert(now[w] == y);
    }
}

proof fn lemma_stack_shrink(
    pre: Seq<NodeId>,
    now: Seq<NodeId>,
    popped: int,
    mapper: Seq<Option<NodeId>>,
    n: int,
    root: int,
    nodes: Seq<Node>,
)
    requires
        pre.len() >= 1,
        now == pre.subrange(0, pre.len() - 1),
        pre[pre.len() - 1] == popped,
        0 <= popped < n,
        n <= usize::MAX,
        mapper.len() == n,
        mapper[popped] is Some,
        forall|i: int, x: int|
            0 <= i < n && mapper[i] is Some && 0 <= x < node_children(#[trigger] nodes[i]).len()
                ==> mapper[node_children(nodes[i])[x] as int] is Some || pre.contains(
                #[trigger] node_children(nodes[i])[x],
            ),
        0 <= root < n,
        mapper[root] is Some || pre.contains(root as NodeId),
    ensures
        forall|i: int, x: int|
            0 <= i < n && mapper[i] is Some && 0 <= x < node_children(#[trigger] nodes[i]).len()
                ==> mapper[node_children(nodes[i])[x] as int] is Some || now.contains(
                #[trigger] node_children(nodes[i])[x],
            ),
        mapper[root] is Some || now.contains(root as NodeId),
{
    assert forall|i: int, x: int|
        0 <= i < n && mapper[i] is Some && 0 <= x < node_children(#[trigger] nodes[i]).len()
            implies mapper[node_children(nodes[i])[x] as int] is Some || now.contains(
        #[trigger] node_children(nodes[i])[x],
    ) by {
        let c = node_children(nodes[i])[x];
        if !(mapper[c as int] is Some) {
            assert(pre.contains(c));
            let w = choose|w: int| 0 <= w < pre.len() && pre[w] == c;
            if w == pre.len() - 1 {
                assert(c == popped);
                assert(mapper[c as int] is Some);
            } else {
                assert(now[w] == c);
                assert(now.contains(c));
            }
        }
    }
    if !(mapper[root] is Some) {
        let w = choose|w: int| 0 <= w < pre.len() && pre[w] == root as NodeId;
        if w == pre.len() - 1 {
            assert(root == popped);
            assert(mapper[root] is Some);
        } else {
            assert(now[w] == root as NodeId);
            assert(now.contains(root as NodeId));
        }
    }
}

/// The synthetic basic event standing for a solved module: a discrete
/// event named after the replaced identifier.
pub fn replacement_event(mod_id: NodeId, tep: Dec) -> (r: Node)
    requires
        dec_wf(tep),
        dec_is_prob(tep),
    ensures
        r is BasicEvent,
        r matches Node::BasicEvent(nm, be) ==> (nm@ == "repl_node_"@ + nat_str(mod_id as nat)
            && be.dist == Distribution::Discrete(tep) && be.repair_mode is None && be_wf(be)),
{
    let mut name_ch: Vec<char> = Vec::new();
    push_str_chars(&mut name_ch, "repl_node_");
    push_usize(&mut name_ch, mod_id);
    let name = chars_to_string(&name_ch);
    Node::BasicEvent(name, BasicEvent { dist: Distribution::Discrete(tep), repair_mode: None })
}

proof fn lemma_count_true_zero(vis: Seq<bool>, k: int)
    requires
        k <= vis.len(),
        forall|i: int| 0 <= i < vis.len() ==> !(#[trigger] vis[i]),
    ensures
        count_true(vis, k) == 0,
    decreases k,
{
    if k > 0 {
        lemma_count_true_zero(vis, k - 1);
    }
}

proof fn lemma_node_clauses_lits(nodes: Seq<Node>, k: int)
    requires
        0 <= k < nodes.len(),
        forall|j: int|
            0 <= j < node_children(nodes[k]).len() ==> #[trigger] node_children(nodes[k])[j]
                < nodes.len(),
    ensures
        forall|i: int, j: int|
            0 <= i < node_clauses(nodes[k], k as usize).len() && 0 <= j < node_clauses(
                nodes[k],
                k as usize,
            )[i].len() ==> 1 <= #[trigger] abs_lit(node_clauses(nodes[k], k as usize)[i][j])
                <= nodes.len(),
{
    let own = node_clauses(nodes[k], k as usize);
    let cs = node_children(nodes[k]);
    assert forall|i: int, j: int|
        0 <= i < own.len() && 0 <= j < own[i].len() implies 1 <= #[trigger] abs_lit(own[i][j])
        <= nodes.len() by {
        match nodes[k] {
            Node::BasicEvent(_, _) => {},
            Node::PlaceHolder(_, _, _) => {},
            Node::Vot(_, _) => {},
            Node::Not(a) => {
                assert(cs[0] == a);
            },
            Node::And(v) => {
                assert(cs =~= v@);
            },
            Node::Or(v) => {
                assert(cs =~= v@);
            },
            Node::Xor(v) => {
                assert(cs =~= v@);
            },
        }
    }
}

} // verus!

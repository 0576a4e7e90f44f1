use vstd::prelude::*;

use crate::fault_tree::{FaultTree, ft_wf, ft_normalized};
use crate::formula::NodeId;
use crate::nodes::{Node, node_children};
use crate::FtError;
use vstd::string::StringExecFns;

verus! {

/// Book-keeping for one node during the two modularization passes.
#[derive(Clone, Copy)]
pub struct DFSNode {
    pub visited: bool,
    pub t_fst_visit: usize,
    pub t_snd_visit: usize,
    pub t_lst_visit: usize,
    pub t_max_desc: usize,
    pub t_min_desc: usize,
}

impl Default for DFSNode {
    /// A record before any visit: the descendant window is empty, kept as
    /// an inverted pair of extremes.
    fn default() -> (r: Self)
        ensures
            !r.visited,
            r.t_fst_visit == 0,
            r.t_snd_visit == 0,
            r.t_lst_visit == 0,
            r.t_max_desc == usize::MIN,
            r.t_min_desc == usize::MAX,
    {
        DFSNode {
            visited: false,
            t_fst_visit: 0,
            t_snd_visit: 0,
            t_lst_visit: 0,
            t_max_desc: usize::MIN,
            t_min_desc: usize::MAX,
        }
    }
}

impl DFSNode {
    /// Whether the first pass has reached the node.
    pub fn is_visited(&self) -> (r: bool)
        ensures
            r == self.visited,
    {
        self.visited
    }

    /// The Dutuit-Rauzy criterion: every descendant's first visit falls
    /// strictly inside the node's open visit window.
    pub fn is_module(&self) -> (r: bool)
        ensures
            r == (self.t_min_desc > self.t_fst_visit && self.t_max_desc < self.t_snd_visit),
    {
        self.t_min_desc > self.t_fst_visit && self.t_max_desc < self.t_snd_visit
    }

    /// Whether the second pass has not yet filled the descendant window.
    pub fn snd_dfs_visited(&self) -> (r: bool)
        ensures
            r == (self.t_min_desc == usize::MAX),
    {
        self.t_min_desc == usize::MAX
    }

    /// Widens the descendant window by one child's contribution.
    pub fn update_t_desc(&mut self, min_c: usize, max_c: usize)
        ensures
            old(self).t_min_desc == usize::MAX ==> (final(self).t_min_desc == min_c
                && final(self).t_max_desc == max_c),
            old(self).t_min_desc != usize::MAX ==> (final(self).t_min_desc == (
            if min_c < old(self).t_min_desc {
                min_c
            } else {
                old(self).t_min_desc
            }) && final(self).t_max_desc == (if max_c > old(self).t_max_desc {
                max_c
            } else {
                old(self).t_max_desc
            })),
            final(self).visited == old(self).visited,
            final(self).t_fst_visit == old(self).t_fst_visit,
            final(self).t_snd_visit == old(self).t_snd_visit,
            final(self).t_lst_visit == old(self).t_lst_visit,
    {
        if self.t_min_desc == usize::MAX {
            self.t_min_desc = min_c;
            self.t_max_desc = max_c;
        } else {
            if min_c < self.t_min_desc {
                self.t_min_desc = min_c;
            }
            if max_c > self.t_max_desc {
                self.t_max_desc = max_c;
            }
        }
    }
}


/// The record before any visit, as `Default::default` builds it.
pub open spec fn fresh_rec() -> DFSNode {
    DFSNode {
        visited: false,
        t_fst_visit: 0,
        t_snd_visit: 0,
        t_lst_visit: 0,
        t_max_desc: usize::MIN,
        t_min_desc: usize::MAX,
    }
}

/// The window criterion on a finished record.
pub open spec fn is_module_spec(r: DFSNode) -> bool {
    r.t_min_desc > r.t_fst_visit && r.t_max_desc < r.t_snd_visit
}

/// One pop of the first pass: the clock ticks (capped), the popped node is
/// stamped, and an unvisited inner node is re-pushed under its children in
/// reverse order.
pub open spec fn p1_run(
    nodes: Seq<Node>,
    stack: Seq<NodeId>,
    recs: Seq<DFSNode>,
    time: usize,
    fuel: nat,
) -> Option<(Seq<DFSNode>, usize)>
    decreases fuel,
{
    if stack.len() == 0 {
        Some((recs, time))
    } else if fuel == 0 {
        None
    } else {
        let v = stack.last();
        let stack1 = stack.drop_last();
        let t1: usize = if time < usize::MAX {
            (time + 1) as usize
        } else {
            time
        };
        let ch = node_children(nodes[v as int]);
        let r0 = recs[v as int];
        if ch.len() == 0 {
            let r1 = if !r0.visited {
                DFSNode { visited: true, t_fst_visit: t1, t_snd_visit: t1, t_lst_visit: t1, ..r0 }
            } else {
                DFSNode { t_lst_visit: t1, ..r0 }
            };
            p1_run(nodes, stack1, recs.update(v as int, r1), t1, (fuel - 1) as nat)
        } else if !r0.visited {
            let r1 = DFSNode { visited: true, t_fst_visit: t1, t_lst_visit: t1, ..r0 };
            let stack2 = stack1.push(v) + Seq::new(ch.len(), |i: int| ch[ch.len() - 1 - i]);
            p1_run(nodes, stack2, recs.update(v as int, r1), t1, (fuel - 1) as nat)
        } else {
            let r1 = if r0.t_snd_visit == 0 {
                DFSNode { t_snd_visit: t1, t_lst_visit: t1, ..r0 }
            } else {
                DFSNode { t_lst_visit: t1, ..r0 }
            };
            p1_run(nodes, stack1, recs.update(v as int, r1), t1, (fuel - 1) as nat)
        }
    }
}

/// `update_t_desc` as a value: widens the descendant window by one child.
pub open spec fn upd_desc(r: DFSNode, mn: usize, mx: usize) -> DFSNode {
    DFSNode {
        t_min_desc: if r.t_min_desc == usize::MAX {
            mn
        } else if mn < r.t_min_desc {
            mn
        } else {
            r.t_min_desc
        },
        t_max_desc: if r.t_min_desc == usize::MAX {
            mx
        } else if mx > r.t_max_desc {
            mx
        } else {
            r.t_max_desc
        },
        ..r
    }
}

/// One round of the second pass on the top frame; `None` stands for the
/// rejection of a looping reference.
pub open spec fn p2_step(
    nodes: Seq<Node>,
    frames: Seq<(NodeId, usize)>,
    computing: Seq<bool>,
    recs: Seq<DFSNode>,
    ret: Option<(usize, usize)>,
) -> Option<(Seq<(NodeId, usize)>, Seq<bool>, Seq<DFSNode>, Option<(usize, usize)>)>
    recommends
        frames.len() > 0,
{
    let v = frames.last().0;
    let ci = frames.last().1;
    let ch = node_children(nodes[v as int]);
    if ci == 0 && !computing[v as int] && recs[v as int].t_min_desc != usize::MAX {
        // on entry: a node whose window is already filled answers at once
        let rv = recs[v as int];
        Some((frames.drop_last(), computing, recs, Some((rv.t_fst_visit, rv.t_lst_visit))))
    } else {
        let computing1 = if ci == 0 {
            computing.update(v as int, true)
        } else {
            computing
        };
        let recs1 = if ci > 0 && ret is Some {
            recs.update(v as int, upd_desc(recs[v as int], ret->Some_0.0, ret->Some_0.1))
        } else {
            recs
        };
        if ci < ch.len() {
            let c = ch[ci as int];
            let frames1 = frames.update(frames.len() - 1, (v, (ci + 1) as usize));
            if computing1[c as int] {
                None
            } else if recs1[c as int].t_min_desc != usize::MAX {
                let rvc = recs1[c as int];
                Some((frames1, computing1, recs1, Some((rvc.t_fst_visit, rvc.t_lst_visit))))
            } else {
                Some((frames1.push((c, 0usize)), computing1, recs1, None))
            }
        } else {
            let rv = recs1[v as int];
            let rmin = if rv.t_min_desc == usize::MAX || rv.t_fst_visit < rv.t_min_desc {
                rv.t_fst_visit
            } else {
                rv.t_min_desc
            };
            let rmax = if rv.t_max_desc == usize::MIN || rv.t_lst_visit > rv.t_max_desc {
                rv.t_lst_visit
            } else {
                rv.t_max_desc
            };
            Some(
                (frames.drop_last(), computing1.update(v as int, false), recs1, Some((rmin, rmax))),
            )
        }
    }
}

/// The second pass run to completion: `None` for want of fuel,
/// `Some(None)` for a looping reference, else the finished records.
pub open spec fn p2_run(
    nodes: Seq<Node>,
    frames: Seq<(NodeId, usize)>,
    computing: Seq<bool>,
    recs: Seq<DFSNode>,
    ret: Option<(usize, usize)>,
    fuel: nat,
) -> Option<Option<Seq<DFSNode>>>
    decreases fuel,
{
    if frames.len() == 0 {
        Some(Some(recs))
    } else if fuel == 0 {
        None
    } else {
        match p2_step(nodes, frames, computing, recs, ret) {
            None => Some(None),
            Some(st) => p2_run(nodes, st.0, st.1, st.2, st.3, (fuel - 1) as nat),
        }
    }
}

/// The summed degree-plus-two of the first `k` nodes: the measure the
/// work budget of the two passes is computed from.
pub open spec fn degsum(nodes: Seq<Node>, k: int) -> int
    decreases k,
{
    if k <= 0 {
        0
    } else {
        degsum(nodes, k - 1) + node_children(nodes[k - 1]).len() + 2
    }
}

proof fn lemma_degsum_nonneg(nodes: Seq<Node>, k: int)
    ensures
        degsum(nodes, k) >= 0,
    decreases k,
{
    if k > 0 {
        lemma_degsum_nonneg(nodes, k - 1);
    }
}

/// The fuel both passes run under: four times the saturated degree sum,
/// exactly as the budget loop computes it.
pub open spec fn budget_spec(nodes: Seq<Node>) -> u64 {
    let total = 4 + degsum(nodes, nodes.len() as int);
    let b: int = if total > u64::MAX {
        u64::MAX as int
    } else {
        total
    };
    if 4 * b > u64::MAX {
        u64::MAX
    } else {
        (4 * b) as u64
    }
}

/// The finished records of the two passes run under the computed budget:
/// `None` when the budget runs out or a looping reference is met.
pub open spec fn modules_result(nodes: Seq<Node>, root: NodeId) -> Option<Seq<DFSNode>> {
    match p1_run(
        nodes,
        seq![root],
        Seq::new(nodes.len(), |i: int| fresh_rec()),
        0,
        budget_spec(nodes) as nat,
    ) {
        Some(p) => match p2_run(
            nodes,
            seq![(root, 0usize)],
            Seq::new(nodes.len(), |i: int| false),
            p.0,
            None,
            budget_spec(nodes) as nat,
        ) {
            Some(Some(r2)) => Some(r2),
            Some(None) => None,
            None => None,
        },
        None => None,
    }
}

/// Both passes run from their start states: true when the first pass ends
/// within `f1` rounds and the second within `f2`, yielding the records
/// `recs2`.  The rounds are deterministic, so any two terminating runs
/// yield the same records.
pub open spec fn passes_yield(
    nodes: Seq<Node>,
    root: NodeId,
    f1: nat,
    f2: nat,
    recs2: Seq<DFSNode>,
) -> bool {
    match p1_run(nodes, seq![root], Seq::new(nodes.len(), |i: int| fresh_rec()), 0, f1) {
        Some(p) => p2_run(
            nodes,
            seq![(root, 0usize)],
            Seq::new(nodes.len(), |i: int| false),
            p.0,
            None,
            f2,
        ) == Some(Some(recs2)),
        None => false,
    }
}

/// The gathered result: the non-root inner nodes, in ascending order, whose
/// finished record meets the window criterion.
pub open spec fn gather_spec(
    nodes: Seq<Node>,
    recs: Seq<DFSNode>,
    root: NodeId,
    k: int,
) -> Seq<NodeId>
    decreases k,
{
    if k <= 0 {
        Seq::empty()
    } else {
        let pre = gather_spec(nodes, recs, root, k - 1);
        if is_module_spec(recs[k - 1]) && node_children(nodes[k - 1]).len() > 0 && k - 1 != root as int {
            pre.push((k - 1) as NodeId)
        } else {
            pre
        }
    }
}

/// Finds the modules of the tree: the non-root gates whose descendants are
/// never referenced from outside their subtree, by the two-pass visit-time
/// algorithm.  A tree whose references loop is rejected instead of being
/// walked forever.
pub fn get_modules(ft: &FaultTree) -> (r: Result<Vec<NodeId>, FtError>)
    requires
        ft_wf(*ft),
        ft_normalized(*ft),
    ensures
        r matches Ok(ids) ==> {
            &&& forall|i: int| 0 <= i < ids@.len() ==> #[trigger] ids@[i] < ft.nodes@.len()
            &&& forall|i: int| 0 <= i < ids@.len() ==> #[trigger] ids@[i] != ft.root_id
            &&& forall|i: int|
                0 <= i < ids@.len() ==> node_children(ft.nodes@[#[trigger] ids@[i] as int]).len()
                    > 0
            &&& forall|i: int, j: int| 0 <= i < j < ids@.len() ==> ids@[i] < ids@[j]
            &&& exists|f1: nat, f2: nat, recs2: Seq<DFSNode>|
                #[trigger] passes_yield(ft.nodes@, ft.root_id, f1, f2, recs2) && ids@
                    == gather_spec(ft.nodes@, recs2, ft.root_id, ft.nodes@.len() as int)
            &&& ids@ == gather_spec(
                ft.nodes@,
                modules_result(ft.nodes@, ft.root_id)->Some_0,
                ft.root_id,
                ft.nodes@.len() as int,
            )
        },
        r is Ok <==> modules_result(ft.nodes@, ft.root_id) is Some,
{
    let n = ft.nodes.len();
    let mut recs: Vec<DFSNode> = Vec::new();
    let mut k: usize = 0;
    while k < n
        invariant
            k <= n,
            recs@.len() == k,
            forall|i: int| 0 <= i < k ==> #[trigger] recs@[i] == fresh_rec(),
        decreases n - k,
    {
        recs.push(DFSNode::default());
        k = k + 1;
    }
    let ghost init_recs = Seq::new(n as nat, |i: int| fresh_rec());
    proof {
        assert(recs@ =~= init_recs);
    }
    // an upper bound on the work both passes can do on an acyclic graph
    let mut budget: u64 = 4;
    let mut e: usize = 0;
    while e < n
        invariant
            e <= n,
            n == ft.nodes@.len(),
            ft_wf(*ft),
            ft_normalized(*ft),
            budget == (if 4 + degsum(ft.nodes@, e as int) > u64::MAX {
                u64::MAX
            } else {
                (4 + degsum(ft.nodes@, e as int)) as u64
            }),
        decreases n - e,
    {
        let cl = ft.nodes[e].children().len();
        proof {
            lemma_degsum_nonneg(ft.nodes@, e as int);
            assert(degsum(ft.nodes@, e + 1) == degsum(ft.nodes@, e as int) + node_children(
                ft.nodes@[e as int],
            ).len() + 2);
        }
        budget = budget.saturating_add(cl as u64);
        budget = budget.saturating_add(2);
        e = e + 1;
    }
    budget = match budget.checked_mul(4) {
        Some(v) => v,
        None => u64::MAX,
    };
    proof {
        lemma_degsum_nonneg(ft.nodes@, n as int);
        assert(budget == budget_spec(ft.nodes@));
    }
    // first pass: stamp the visit times with a monotonic clock
    let mut time: usize = 0;
    let mut stack: Vec<NodeId> = Vec::new();
    stack.push(ft.root_id);
    let mut fuel: u64 = budget;
    let ghost b0 = budget;
    proof {
        assert(stack@ =~= seq![ft.root_id]);
    }
    while stack.len() > 0
        invariant
            n == ft.nodes@.len(),
            ft_wf(*ft),
            ft_normalized(*ft),
            recs@.len() == n,
            forall|i: int| 0 <= i < stack@.len() ==> #[trigger] stack@[i] < n,
            p1_run(ft.nodes@, stack@, recs@, time, fuel as nat) == p1_run(
                ft.nodes@,
                seq![ft.root_id],
                init_recs,
                0,
                b0 as nat,
            ),
            b0 == budget_spec(ft.nodes@),
            init_recs == Seq::new(n as nat, |i: int| fresh_rec()),
        decreases fuel,
    {
        if fuel == 0 {
            proof {
                assert(p1_run(ft.nodes@, seq![ft.root_id], init_recs, 0, b0 as nat) is None);
                assert(modules_result(ft.nodes@, ft.root_id) is None);
            }
            return Err(FtError::Structure(String::from_str("tree walk did not finish")));
        }
        let ghost stack_pre = stack@;
        let ghost recs_pre = recs@;
        let ghost time_pre = time;
        let ghost fuel_pre = fuel;
        fuel = fuel - 1;
        let v = stack.pop().unwrap();
        if time < usize::MAX {
            time = time + 1;
        }
        proof {
            assert(v == stack_pre.last());
            assert(stack@ == stack_pre.drop_last());
            assert(time == (if time_pre < usize::MAX {
                (time_pre + 1) as usize
            } else {
                time_pre
            }));
        }
        let children = ft.nodes[v].children();
        let mut rec = recs[v];
        rec.t_lst_visit = time;
        if children.len() == 0 {
            if !rec.is_visited() {
                rec.visited = true;
                rec.t_fst_visit = time;
                rec.t_snd_visit = time;
                proof {
                    assert(rec == (DFSNode {
                        visited: true,
                        t_fst_visit: time,
                        t_snd_visit: time,
                        t_lst_visit: time,
                        ..recs_pre[v as int]
                    }));
                }
            } else {
                proof {
                    assert(rec == (DFSNode { t_lst_visit: time, ..recs_pre[v as int] }));
                }
            }
            recs.set(v, rec);
            proof {
                assert(p1_run(ft.nodes@, stack_pre, recs_pre, time_pre, fuel_pre as nat)
                    == p1_run(ft.nodes@, stack@, recs@, time, fuel as nat));
            }
        } else {
            if !rec.is_visited() {
                rec.visited = true;
                rec.t_fst_visit = time;
                recs.set(v, rec);
                proof {
                    assert(rec == (DFSNode {
                        visited: true,
                        t_fst_visit: time,
                        t_lst_visit: time,
                        ..recs_pre[v as int]
                    }));
                }
                // revisit this node after the children
                stack.push(v);
                let ghost stack_mid = stack_pre.drop_last().push(v);
                let ghost stack_goal = stack_mid + Seq::new(
                    children@.len(),
                    |i: int| children@[children@.len() - 1 - i],
                );
                let ghost recs_next = recs@;
                let ghost time_g = time;
                let ghost fuel_g = fuel;
                proof {
                    assert(stack@ =~= stack_mid + Seq::new(
                        (children@.len() - children@.len()) as nat,
                        |i: int| children@[children@.len() - 1 - i],
                    ));
                    assert(p1_run(ft.nodes@, stack_pre, recs_pre, time_pre, fuel_pre as nat)
                        == p1_run(ft.nodes@, stack_goal, recs_next, time_g, fuel_g as nat));
                }
                let mut ci: usize = children.len();
                while ci > 0
                    invariant
                        ci <= children@.len(),
                        n == ft.nodes@.len(),
                        children@ == node_children(ft.nodes@[v as int]),
                        v < n,
                        ft_wf(*ft),
                        forall|i: int| 0 <= i < stack@.len() ==> #[trigger] stack@[i] < n,
                        recs@ == recs_next,
                        time == time_g,
                        fuel == fuel_g,
                        stack@ == stack_mid + Seq::new(
                            (children@.len() - ci) as nat,
                            |i: int| children@[children@.len() - 1 - i],
                        ),
                        p1_run(ft.nodes@, stack_goal, recs_next, time_g, fuel_g as nat) == p1_run(
                            ft.nodes@,
                            seq![ft.root_id],
                            init_recs,
                            0,
                            b0 as nat,
                        ),
                        stack_goal == stack_mid + Seq::new(
                            children@.len(),
                            |i: int| children@[children@.len() - 1 - i],
                        ),
                    decreases ci,
                {
                    ci = ci - 1;
                    stack.push(children[ci]);
                    proof {
                        assert(stack@ =~= stack_mid + Seq::new(
                            (children@.len() - ci) as nat,
                            |i: int| children@[children@.len() - 1 - i],
                        ));
                    }
                }
                proof {
                    assert(stack@ =~= stack_goal);
                }
            } else {
                if rec.t_snd_visit == 0 {
                    rec.t_snd_visit = time;
                    proof {
                        assert(rec == (DFSNode {
                            t_snd_visit: time,
                            t_lst_visit: time,
                            ..recs_pre[v as int]
                        }));
                    }
                } else {
                    proof {
                        assert(rec == (DFSNode { t_lst_visit: time, ..recs_pre[v as int] }));
                    }
                }
                recs.set(v, rec);
                proof {
                    assert(p1_run(ft.nodes@, stack_pre, recs_pre, time_pre, fuel_pre as nat)
                        == p1_run(ft.nodes@, stack@, recs@, time, fuel as nat));
                }
            }
        }
    }
    let ghost recs_one = recs@;
    let ghost time_one = time;
    proof {
        assert(p1_run(ft.nodes@, seq![ft.root_id], init_recs, 0, b0 as nat) == Some(
            (recs_one, time_one),
        ));
    }
    // second pass: fold the descendants' first visits upward
    let mut frames: Vec<(NodeId, usize)> = Vec::new();
    let mut computing: Vec<bool> = Vec::new();
    let mut k2: usize = 0;
    while k2 < n
        invariant
            k2 <= n,
            computing@.len() == k2,
            forall|i: int| 0 <= i < k2 ==> !(#[trigger] computing@[i]),
        decreases n - k2,
    {
        computing.push(false);
        k2 = k2 + 1;
    }
    let ghost init_comp = Seq::new(n as nat, |i: int| false);
    proof {
        assert(computing@ =~= init_comp);
    }
    // the running return value of the frame most recently finished
    let mut ret_min: usize = 0;
    let mut ret_max: usize = 0;
    let mut have_ret = false;
    frames.push((ft.root_id, 0));
    let mut fuel2: u64 = budget;
    proof {
        assert(frames@ =~= seq![(ft.root_id, 0usize)]);
    }
    while frames.len() > 0
        invariant
            n == ft.nodes@.len(),
            ft_wf(*ft),
            ft_normalized(*ft),
            recs@.len() == n,
            computing@.len() == n,
            forall|i: int| 0 <= i < frames@.len() ==> (#[trigger] frames@[i]).0 < n,
            p1_run(ft.nodes@, seq![ft.root_id], init_recs, 0, b0 as nat) == Some(
                (recs_one, time_one),
            ),
            p2_run(
                ft.nodes@,
                frames@,
                computing@,
                recs@,
                if have_ret {
                    Some((ret_min, ret_max))
                } else {
                    None
                },
                fuel2 as nat,
            ) == p2_run(
                ft.nodes@,
                seq![(ft.root_id, 0usize)],
                init_comp,
                recs_one,
                None,
                b0 as nat,
            ),
            b0 == budget_spec(ft.nodes@),
            init_recs == Seq::new(n as nat, |i: int| fresh_rec()),
            init_comp == Seq::new(n as nat, |i: int| false),
        decreases fuel2,
    {
        if fuel2 == 0 {
            proof {
                assert(p2_run(
                    ft.nodes@,
                    seq![(ft.root_id, 0usize)],
                    init_comp,
                    recs_one,
                    None,
                    b0 as nat,
                ) is None);
                assert(modules_result(ft.nodes@, ft.root_id) is None);
            }
            return Err(FtError::Structure(String::from_str("tree walk did not finish")));
        }
        let ghost frames_pre = frames@;
        let ghost comp_pre = computing@;
        let ghost recs_pre = recs@;
        let ghost ret_pre: Option<(usize, usize)> = if have_ret {
            Some((ret_min, ret_max))
        } else {
            None
        };
        let ghost fuel2_pre = fuel2;
        fuel2 = fuel2 - 1;
        let top = frames.len() - 1;
        let frame = frames[top];
        let v = frame.0;
        let ci = frame.1;
        proof {
            assert(frames_pre.last() == (v, ci));
        }
        let children = ft.nodes[v].children();
        if ci == 0 && !computing[v] {
            // on entry: a node whose window is already filled answers at once
            let rv = recs[v];
            if !rv.snd_dfs_visited() {
                ret_min = rv.t_fst_visit;
                ret_max = rv.t_lst_visit;
                have_ret = true;
                let _ = frames.pop();
                proof {
                    assert(p2_step(ft.nodes@, frames_pre, comp_pre, recs_pre, ret_pre) == Some(
                        (frames@, computing@, recs@, Some((ret_min, ret_max))),
                    ));
                    assert(p2_run(ft.nodes@, frames_pre, comp_pre, recs_pre, ret_pre, fuel2_pre as nat)
                        == p2_run(
                        ft.nodes@,
                        frames@,
                        computing@,
                        recs@,
                        Some((ret_min, ret_max)),
                        fuel2 as nat,
                    ));
                }
                continue ;
            }
            computing.set(v, true);
        }
        proof {
            if ci == 0 {
                assert(computing@ =~= comp_pre.update(v as int, true));
            } else {
                assert(computing@ == comp_pre);
            }
        }
        let ghost comp_mid = computing@;
        if ci > 0 && have_ret {
            // fold the child's answer that just came back
            let mut rec = recs[v];
            rec.update_t_desc(ret_min, ret_max);
            proof {
                assert(rec == upd_desc(recs_pre[v as int], ret_min, ret_max));
            }
            recs.set(v, rec);
            have_ret = false;
        }
        proof {
            if ci > 0 && ret_pre is Some {
                assert(recs@ == recs_pre.update(
                    v as int,
                    upd_desc(recs_pre[v as int], ret_pre->Some_0.0, ret_pre->Some_0.1),
                ));
            } else {
                assert(recs@ == recs_pre);
            }
        }
        let ghost recs_mid = recs@;
        if ci < children.len() {
            let c = children[ci];
            frames.set(top, (v, ci + 1));
            proof {
                assert(frames@ == frames_pre.update(frames_pre.len() - 1, (v, (ci + 1) as usize)));
            }
            if computing[c] {
                proof {
                    assert(p2_step(ft.nodes@, frames_pre, comp_pre, recs_pre, ret_pre) is None);
                    assert(p2_run(
                        ft.nodes@,
                        frames_pre,
                        comp_pre,
                        recs_pre,
                        ret_pre,
                        fuel2_pre as nat,
                    ) == Some(None::<Seq<DFSNode>>));
                    assert(modules_result(ft.nodes@, ft.root_id) is None);
                }
                return Err(FtError::Structure(String::from_str("tree references loop")));
            }
            let rvc = recs[c];
            if !rvc.snd_dfs_visited() {
                // the child is done: take its visit window as the answer
                ret_min = rvc.t_fst_visit;
                ret_max = rvc.t_lst_visit;
                have_ret = true;
                proof {
                    assert(p2_step(ft.nodes@, frames_pre, comp_pre, recs_pre, ret_pre) == Some(
                        (frames@, comp_mid, recs_mid, Some((ret_min, ret_max))),
                    ));
                    assert(p2_run(ft.nodes@, frames_pre, comp_pre, recs_pre, ret_pre, fuel2_pre as nat)
                        == p2_run(
                        ft.nodes@,
                        frames@,
                        computing@,
                        recs@,
                        Some((ret_min, ret_max)),
                        fuel2 as nat,
                    ));
                }
            } else {
                frames.push((c, 0));
                have_ret = false;
                proof {
                    assert(p2_step(ft.nodes@, frames_pre, comp_pre, recs_pre, ret_pre) == Some(
                        (frames@, comp_mid, recs_mid, None::<(usize, usize)>),
                    ));
                    assert(p2_run(ft.nodes@, frames_pre, comp_pre, recs_pre, ret_pre, fuel2_pre as nat)
                        == p2_run(ft.nodes@, frames@, computing@, recs@, None::<(usize, usize)>, fuel2 as nat));
                }
            }
        } else {
            // all children folded: answer with the widened window
            let rv = recs[v];
            let rmin = if rv.t_min_desc == usize::MAX || rv.t_fst_visit < rv.t_min_desc {
                rv.t_fst_visit
            } else {
                rv.t_min_desc
            };
            let rmax = if rv.t_max_desc == usize::MIN || rv.t_lst_visit > rv.t_max_desc {
                rv.t_lst_visit
            } else {
                rv.t_max_desc
            };
            ret_min = rmin;
            ret_max = rmax;
            have_ret = true;
            computing.set(v, false);
            let _ = frames.pop();
            proof {
                assert(computing@ =~= comp_mid.update(v as int, false));
                assert(p2_step(ft.nodes@, frames_pre, comp_pre, recs_pre, ret_pre) == Some(
                    (frames@, computing@, recs_mid, Some((ret_min, ret_max))),
                ));
                assert(p2_run(ft.nodes@, frames_pre, comp_pre, recs_pre, ret_pre, fuel2_pre as nat)
                    == p2_run(
                    ft.nodes@,
                    frames@,
                    computing@,
                    recs@,
                    Some((ret_min, ret_max)),
                    fuel2 as nat,
                ));
            }
        }
    }
    let ghost recs_two = recs@;
    proof {
        assert(p2_run(ft.nodes@, seq![(ft.root_id, 0usize)], init_comp, recs_one, None, b0 as nat)
            == Some(Some(recs_two)));
        assert(passes_yield(ft.nodes@, ft.root_id, b0 as nat, b0 as nat, recs_two));
        assert(modules_result(ft.nodes@, ft.root_id) == Some(recs_two));
    }
    // gather: a module is a non-root gate meeting the window criterion
    let mut out: Vec<NodeId> = Vec::new();
    let mut i: usize = 0;
    while i < n
        invariant
            i <= n,
            n == ft.nodes@.len(),
            ft_wf(*ft),
            ft_normalized(*ft),
            recs@.len() == n,
            recs@ == recs_two,
            passes_yield(ft.nodes@, ft.root_id, b0 as nat, b0 as nat, recs_two),
            forall|j: int| 0 <= j < out@.len() ==> #[trigger] out@[j] < n,
            forall|j: int| 0 <= j < out@.len() ==> #[trigger] out@[j] != ft.root_id,
            forall|j: int|
                0 <= j < out@.len() ==> node_children(ft.nodes@[#[trigger] out@[j] as int]).len()
                    > 0,
            forall|x: int, y: int| 0 <= x < y < out@.len() ==> out@[x] < out@[y],
            forall|j: int| 0 <= j < out@.len() ==> #[trigger] out@[j] < i,
            out@ == gather_spec(ft.nodes@, recs_two, ft.root_id, i as int),
        decreases n - i,
    {
        let rec = &recs[i];
        let has_children = ft.nodes[i].children().len() > 0;
        if rec.is_module() && has_children && i != ft.root_id {
            out.push(i);
        }
        i = i + 1;
    }
    proof {
        assert(out@ == gather_spec(ft.nodes@, recs_two, ft.root_id, ft.nodes@.len() as int));
    }
    Ok(out)
}

} // verus!

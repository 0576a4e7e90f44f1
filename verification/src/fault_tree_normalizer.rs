use vstd::prelude::*;

use crate::dec::{Dec, dec_wf, dec_is_prob, dec_token_valid, dec_token_fits,
    dec_token_value, token_ok, token_value_rel};
use crate::formula::NodeId;
use crate::nodes::{Node, BasicEvent, Distribution, RepairMode, node_children, be_wf};
use crate::strutil::{tokens_spec, split_tokens, strip_marks, strip_marks_spec, chars_to_string,
    str_to_chars};
use crate::FtError;
use vstd::string::StringExecFns;

verus! {

broadcast use vstd::string::group_string_axioms;

/// Builds a fault tree from a textual declaration: it keeps a table from
/// names to identifiers and holds placeholders until every name is known.
pub struct FaultTreeNormalizer {
    pub lookup_table: Vec<(String, NodeId)>,
    pub nodes: Vec<Node>,
    pub root_id: NodeId,
    pub node_counter: usize,
}

/// The identifier a name resolves to: the latest entry wins.
pub open spec fn lookup_spec(tbl: Seq<(String, NodeId)>, name: Seq<char>) -> Option<NodeId>
    decreases tbl.len(),
{
    if tbl.len() == 0 {
        None
    } else if tbl.last().0@ == name {
        Some(tbl.last().1)
    } else {
        lookup_spec(tbl.drop_last(), name)
    }
}

/// The table and the counter agree with the node container, and every
/// basic event already stored is well formed.
pub open spec fn norm_wf(n: FaultTreeNormalizer) -> bool {
    &&& n.node_counter == n.nodes@.len()
    &&& forall|i: int|
        0 <= i < n.lookup_table@.len() ==> (#[trigger] n.lookup_table@[i]).1 < n.nodes@.len()
    &&& forall|i: int|
        0 <= i < n.nodes@.len() ==> (#[trigger] n.nodes@[i] matches Node::BasicEvent(_, be)
            ==> be_wf(be))
    &&& forall|i: int, j: int|
        0 <= i < n.nodes@.len() && 0 <= j < node_children(#[trigger] n.nodes@[i]).len()
            ==> #[trigger] node_children(n.nodes@[i])[j] < n.nodes@.len()
}

proof fn lemma_lookup_in_range(n: FaultTreeNormalizer, name: Seq<char>)
    requires
        norm_wf(n),
        lookup_spec(n.lookup_table@, name) is Some,
    ensures
        lookup_spec(n.lookup_table@, name)->Some_0 < n.nodes@.len(),
{
    lemma_lookup_entry(n.lookup_table@, name);
}

proof fn lemma_lookup_entry(tbl: Seq<(String, NodeId)>, name: Seq<char>)
    requires
        lookup_spec(tbl, name) is Some,
    ensures
        exists|i: int|
            0 <= i < tbl.len() && (#[trigger] tbl[i]).1 == lookup_spec(tbl, name)->Some_0,
    decreases tbl.len(),
{
    if tbl.last().0@ == name {
        assert(tbl[tbl.len() - 1].1 == lookup_spec(tbl, name)->Some_0);
    } else {
        lemma_lookup_entry(tbl.drop_last(), name);
        let i = choose|i: int|
            0 <= i < tbl.drop_last().len() && (#[trigger] tbl.drop_last()[i]).1 == lookup_spec(
                tbl.drop_last(),
                name,
            )->Some_0;
        assert(tbl[i].1 == lookup_spec(tbl, name)->Some_0);
    }
}

impl FaultTreeNormalizer {
    /// A normalizer with nothing read yet.
    pub fn new() -> (r: Self)
        ensures
            r.lookup_table@.len() == 0,
            r.nodes@.len() == 0,
            r.root_id == 0,
            r.node_counter == 0,
            norm_wf(r),
    {
        FaultTreeNormalizer {
            lookup_table: Vec::new(),
            nodes: Vec::new(),
            root_id: 0,
            node_counter: 0,
        }
    }

    /// The identifier a name resolves to, when it is known.
    pub fn lookup(&self, name: &String) -> (r: Option<NodeId>)
        ensures
            r == lookup_spec(self.lookup_table@, name@),
    {
        let mut i: usize = self.lookup_table.len();
        proof {
            assert(self.lookup_table@.subrange(0, i as int) =~= self.lookup_table@);
        }
        while i > 0
            invariant
                i <= self.lookup_table@.len(),
                lookup_spec(self.lookup_table@, name@) == lookup_spec(
                    self.lookup_table@.subrange(0, i as int),
                    name@,
                ),
            decreases i,
        {
            i = i - 1;
            proof {
                assert(self.lookup_table@.subrange(0, i + 1).last() == self.lookup_table@[
                    i as int]);
                assert(self.lookup_table@.subrange(0, i + 1).drop_last() =~= self.lookup_table@
                    .subrange(0, i as int));
            }
            if self.lookup_table[i].0.eq(name) {
                return Some(self.lookup_table[i].1);
            }
        }
        proof {
            assert(self.lookup_table@.subrange(0, 0) =~= Seq::<(String, NodeId)>::empty());
        }
        None
    }

    /// The next free identifier; the caller must add the node right away.
    pub fn new_id(&mut self) -> (r: NodeId)
        requires
            old(self).node_counter == old(self).nodes@.len(),
            old(self).nodes@.len() < usize::MAX,
        ensures
            r == old(self).nodes@.len(),
            final(self).node_counter == old(self).node_counter + 1,
            final(self).nodes == old(self).nodes,
            final(self).lookup_table == old(self).lookup_table,
            final(self).root_id == old(self).root_id,
    {
        let id = self.node_counter;
        self.node_counter = self.node_counter + 1;
        id
    }

    /// Records the node under its name and the identifier just issued.
    pub fn add_node(&mut self, name: String, node: Node, nid: NodeId)
        requires
            nid == old(self).nodes@.len(),
        ensures
            final(self).nodes@ == old(self).nodes@.push(node),
            final(self).lookup_table@ == old(self).lookup_table@.push((name, nid)),
            final(self).root_id == old(self).root_id,
            final(self).node_counter == old(self).node_counter,
    {
        self.lookup_table.push((name, nid));
        self.nodes.push(node);
    }

    /// Replaces the node stored under an existing identifier.
    pub fn update_roots(&mut self, new_node: Node, nid: NodeId)
        requires
            nid < old(self).nodes@.len(),
        ensures
            final(self).nodes@ == old(self).nodes@.update(nid as int, new_node),
            final(self).lookup_table == old(self).lookup_table,
            final(self).root_id == old(self).root_id,
            final(self).node_counter == old(self).node_counter,
    {
        self.nodes.set(nid, new_node);
    }

    /// Appends a node that no declaration names: an auxiliary gate.  The
    /// name table stays as it is, so name resolution is unaffected.
    fn append_node(&mut self, node: Node)
        requires
            old(self).node_counter == old(self).nodes@.len(),
            old(self).nodes@.len() < usize::MAX,
        ensures
            final(self).nodes@ == old(self).nodes@.push(node),
            final(self).lookup_table == old(self).lookup_table,
            final(self).root_id == old(self).root_id,
            final(self).node_counter == old(self).node_counter + 1,
    {
        self.node_counter = self.node_counter + 1;
        self.nodes.push(node);
    }
}

/// The key and raw value of a `key=value` token, when it has exactly one
/// equals sign.
pub open spec fn kv_split(t: Seq<char>) -> Option<(Seq<char>, Seq<char>)> {
    let i = first_eq(t);
    if i == t.len() {
        None
    } else {
        let val = t.subrange(i + 1, t.len() as int);
        if first_eq(val) != val.len() {
            None
        } else {
            Some((t.subrange(0, i), val))
        }
    }
}

/// The index of the first equals sign, or the length when there is none.
pub open spec fn first_eq(t: Seq<char>) -> int
    decreases t.len(),
{
    if t.len() == 0 {
        0
    } else if t[0] == '=' {
        0
    } else {
        1 + first_eq(t.drop_first())
    }
}

/// The characters of a value with every semicolon removed.
pub open spec fn strip_semi_spec(s: Seq<char>) -> Seq<char>
    decreases s.len(),
{
    if s.len() == 0 {
        Seq::empty()
    } else if s.last() == ';' {
        strip_semi_spec(s.drop_last())
    } else {
        strip_semi_spec(s.drop_last()).push(s.last())
    }
}

/// The cleaned value of the last token carrying the given key.
pub open spec fn last_kv(toks: Seq<Seq<char>>, key: Seq<char>) -> Option<Seq<char>>
    decreases toks.len(),
{
    if toks.len() == 0 {
        None
    } else {
        match kv_split(toks.last()) {
            Some(kv) => if kv.0 == key {
                Some(strip_semi_spec(kv.1))
            } else {
                last_kv(toks.drop_last(), key)
            },
            None => last_kv(toks.drop_last(), key),
        }
    }
}

/// Every token splits into a key and a value, and every value is a
/// representable decimal.
pub open spec fn kvs_ok(toks: Seq<Seq<char>>) -> bool {
    forall|i: int|
        0 <= i < toks.len() ==> {
            &&& #[trigger] kv_split(toks[i]) is Some
            &&& token_ok(strip_semi_spec(kv_split(toks[i])->Some_0.1))
        }
}

/// The basic event a declaration's key-value pairs describe.
pub open spec fn be_of_kvs(toks: Seq<Seq<char>>) -> Option<BasicEvent> {
    if last_kv(toks, "prob"@) is Some {
        Some(
            BasicEvent {
                dist: Distribution::Discrete(dec_token_value(last_kv(toks, "prob"@)->Some_0)),
                repair_mode: None,
            },
        )
    } else if last_kv(toks, "lambda"@) is Some {
        let base = BasicEvent {
            dist: Distribution::Continuous(dec_token_value(last_kv(toks, "lambda"@)->Some_0)),
            repair_mode: None,
        };
        if last_kv(toks, "repair"@) is Some {
            Some(
                BasicEvent {
                    dist: base.dist,
                    repair_mode: Some(
                        RepairMode::Monitored(dec_token_value(last_kv(toks, "repair"@)->Some_0)),
                    ),
                },
            )
        } else {
            Some(base)
        }
    } else {
        None
    }
}

proof fn lemma_gate_words_distinct()
    ensures
        "not"@ != "or"@,
        "not"@ != "and"@,
        "not"@ != "xor"@,
{
    reveal_strlit("not");
    reveal_strlit("or");
    reveal_strlit("and");
    reveal_strlit("xor");
    assert("not"@[0] == 'n');
    assert("and"@[0] == 'a');
    assert("xor"@[0] == 'x');
}

proof fn lemma_key_literals_distinct()
    ensures
        "prob"@ != "lambda"@,
        "prob"@ != "repair"@,
        "lambda"@ != "repair"@,
{
    reveal_strlit("prob");
    reveal_strlit("lambda");
    reveal_strlit("repair");
    assert("lambda"@[0] == 'l');
    assert("repair"@[0] == 'r');
}

proof fn lemma_first_eq_props(t: Seq<char>)
    ensures
        0 <= first_eq(t) <= t.len(),
        first_eq(t) < t.len() ==> t[first_eq(t)] == '=',
        forall|j: int| 0 <= j < first_eq(t) ==> #[trigger] t[j] != '=',
    decreases t.len(),
{
    if t.len() > 0 && t[0] != '=' {
        lemma_first_eq_props(t.drop_first());
        assert forall|j: int| 0 <= j < first_eq(t) implies #[trigger] t[j] != '=' by {
            if j > 0 {
                assert(t.drop_first()[j - 1] != '=');
            }
        }
    }
}

/// Splits one `key=value` token; fails when the equals sign is missing or
/// doubled.
fn kv_split_exec(t: &Vec<char>) -> (r: Option<(Vec<char>, Vec<char>)>)
    ensures
        r matches Some(p) ==> kv_split(t@) == Some((p.0@, p.1@)),
        r is None <==> kv_split(t@) is None,
{
    proof {
        lemma_first_eq_props(t@);
    }
    let n = t.len();
    let mut i: usize = 0;
    while i < n && t[i] != '='
        invariant
            i <= n,
            n == t@.len(),
            forall|j: int| 0 <= j < i ==> #[trigger] t@[j] != '=',
        decreases n - i,
    {
        i = i + 1;
    }
    proof {
        assert(i == first_eq(t@)) by {
            if i < first_eq(t@) {
                assert(t@[i as int] == '=');
            }
            if first_eq(t@) < i {
                assert(t@[first_eq(t@)] != '=');
            }
        }
    }
    if i == n {
        return None;
    }
    let ghost val = t@.subrange(i + 1, n as int);
    proof {
        lemma_first_eq_props(val);
    }
    // check there is no second equals sign
    let mut k: usize = i + 1;
    while k < n && t[k] != '='
        invariant
            i + 1 <= k <= n,
            n == t@.len(),
            forall|j: int| i + 1 <= j < k ==> #[trigger] t@[j] != '=',
        decreases n - k,
    {
        k = k + 1;
    }
    proof {
        assert(k - (i + 1) == first_eq(val)) by {
            if k - (i + 1) < first_eq(val) {
                assert(val[k - (i + 1)] == t@[k as int]);
            }
            if first_eq(val) < k - (i + 1) {
                assert(val[first_eq(val)] == t@[first_eq(val) + i + 1]);
            }
        }
    }
    if k < n {
        return None;
    }
    let mut key: Vec<char> = Vec::new();
    let mut j: usize = 0;
    while j < i
        invariant
            j <= i <= n,
            n == t@.len(),
            key@ == t@.subrange(0, j as int),
        decreases i - j,
    {
        key.push(t[j]);
        proof {
            assert(t@.subrange(0, j as int).push(t@[j as int]) =~= t@.subrange(0, j + 1));
        }
        j = j + 1;
    }
    let mut v: Vec<char> = Vec::new();
    let mut j2: usize = i + 1;
    while j2 < n
        invariant
            i + 1 <= j2 <= n,
            n == t@.len(),
            v@ == t@.subrange(i + 1, j2 as int),
        decreases n - j2,
    {
        v.push(t[j2]);
        proof {
            assert(t@.subrange(i + 1, j2 as int).push(t@[j2 as int]) =~= t@.subrange(
                i + 1,
                j2 + 1,
            ));
        }
        j2 = j2 + 1;
    }
    Some((key, v))
}

/// Removes every semicolon from a value token.
fn strip_semi(s: &Vec<char>) -> (r: Vec<char>)
    ensures
        r@ == strip_semi_spec(s@),
{
    let mut out: Vec<char> = Vec::new();
    let mut i: usize = 0;
    while i < s.len()
        invariant
            i <= s@.len(),
            out@ == strip_semi_spec(s@.subrange(0, i as int)),
        decreases s@.len() - i,
    {
        let c = s[i];
        proof {
            assert(s@.subrange(0, i + 1).drop_last() =~= s@.subrange(0, i as int));
            assert(s@.subrange(0, i + 1).last() == s@[i as int]);
        }
        if c != ';' {
            out.push(c);
        }
        i = i + 1;
    }
    proof {
        assert(s@.subrange(0, s@.len() as int) =~= s@);
    }
    out
}

/// Whether the token reads as the given literal.
fn token_is(tok: &Vec<char>, s: &str) -> (r: bool)
    ensures
        r == (tok@ == s@),
{
    let cs = str_to_chars(s);
    if tok.len() != cs.len() {
        proof {
            assert(tok@.len() != s@.len());
        }
        return false;
    }
    let mut i: usize = 0;
    while i < cs.len()
        invariant
            i <= cs@.len(),
            tok@.len() == cs@.len(),
            cs@ == s@,
            forall|j: int| 0 <= j < i ==> tok@[j] == cs@[j],
        decreases cs@.len() - i,
    {
        if tok[i] != cs[i] {
            return false;
        }
        i = i + 1;
    }
    proof {
        assert(tok@ =~= s@);
    }
    true
}

/// The nonnegativity check for rates and repair parameters.
fn dec_nonneg(d: &Dec) -> (r: bool)
    ensures
        r == (crate::dec::dec_num(*d) >= 0),
{
    !d.neg || d.mant == 0
}

/// The views of the argument tokens of a declaration line, after the name.
pub open spec fn arg_views(toks: Seq<Vec<char>>) -> Seq<Seq<char>> {
    Seq::new((toks.len() - 1) as nat, |i: int| toks[i + 1]@)
}

/// Scans the key-value tokens, keeping the last value of each known key.
#[verifier::rlimit(100)]
#[verifier::spinoff_prover]
fn scan_kvs(toks: &Vec<Vec<char>>) -> (r: Result<
    (Option<Dec>, Option<Dec>, Option<Dec>),
    FtError,
>)
    requires
        toks@.len() >= 1,
    ensures
        r matches Ok(p) ==> {
            &&& kvs_ok(arg_views(toks@))
            &&& opt_dec_matches(p.0, last_kv(arg_views(toks@), "prob"@))
            &&& opt_dec_matches(p.1, last_kv(arg_views(toks@), "lambda"@))
            &&& opt_dec_matches(p.2, last_kv(arg_views(toks@), "repair"@))
        },
        r is Err <==> !kvs_ok(arg_views(toks@)),
{
    let ghost args = arg_views(toks@);
    let mut prob: Option<Dec> = None;
    let mut lambda: Option<Dec> = None;
    let mut repair: Option<Dec> = None;
    let mut i: usize = 1;
    proof {
        reveal_strlit("prob");
        reveal_strlit("lambda");
        reveal_strlit("repair");
        assert(args.subrange(0, 0) =~= Seq::<Seq<char>>::empty());
    }
    while i < toks.len()
        invariant
            1 <= i <= toks@.len(),
            args == arg_views(toks@),
            args.len() == toks@.len() - 1,
            forall|k: int| 0 <= k < args.len() ==> args[k] == toks@[k + 1]@,
            kvs_ok(args.subrange(0, i - 1)),
            opt_dec_matches(prob, last_kv(args.subrange(0, i - 1), "prob"@)),
            opt_dec_matches(lambda, last_kv(args.subrange(0, i - 1), "lambda"@)),
            opt_dec_matches(repair, last_kv(args.subrange(0, i - 1), "repair"@)),
        decreases toks@.len() - i,
    {
        let ghost pre = args.subrange(0, i - 1);
        proof {
            lemma_key_literals_distinct();
            assert(args.subrange(0, i as int).drop_last() =~= pre);
            assert(args.subrange(0, i as int).last() == args[i - 1]);
        }
        let kv = match kv_split_exec(&toks[i]) {
            Some(p) => p,
            None => {
                proof {
                    assert(args[i - 1] == toks@[i as int]@);
                    assert(!kvs_ok(args));
                }
                return Err(FtError::Parse(String::from_str("malformed key=value pair")));
            },
        };
        let cleaned = strip_semi(&kv.1);
        let value = match crate::dec::parse_dec_tok(&cleaned) {
            Some(v) => v,
            None => {
                proof {
                    assert(args[i - 1] == toks@[i as int]@);
                    assert(!kvs_ok(args));
                }
                return Err(FtError::Parse(String::from_str("could not parse number")));
            },
        };
        proof {
            assert(kv_split(args[i - 1]) == Some((kv.0@, kv.1@)));
            assert(kvs_ok(args.subrange(0, i as int))) by {
                assert forall|k: int| 0 <= k < i implies {
                    &&& #[trigger] kv_split(args.subrange(0, i as int)[k]) is Some
                    &&& token_ok(strip_semi_spec(kv_split(args.subrange(0, i as int)[k])->Some_0.1))
                } by {
                    assert(args.subrange(0, i as int)[k] == args[k]);
                    if k < i - 1 {
                        assert(pre[k] == args[k]);
                        assert(kv_split(pre[k]) is Some);
                    }
                }
            }
        }
        if token_is(&kv.0, "prob") {
            prob = Some(value);
        } else if token_is(&kv.0, "lambda") {
            lambda = Some(value);
        } else if token_is(&kv.0, "repair") {
            repair = Some(value);
        }
        proof {
            assert(last_kv(args.subrange(0, i as int), "prob"@) == (if kv.0@ == "prob"@ {
                Some(strip_semi_spec(kv.1@))
            } else {
                last_kv(pre, "prob"@)
            }));
            assert(last_kv(args.subrange(0, i as int), "lambda"@) == (if kv.0@ == "lambda"@ {
                Some(strip_semi_spec(kv.1@))
            } else {
                last_kv(pre, "lambda"@)
            }));
            assert(last_kv(args.subrange(0, i as int), "repair"@) == (if kv.0@ == "repair"@ {
                Some(strip_semi_spec(kv.1@))
            } else {
                last_kv(pre, "repair"@)
            }));
            assert(opt_dec_matches(prob, last_kv(args.subrange(0, i as int), "prob"@)));
            assert(opt_dec_matches(lambda, last_kv(args.subrange(0, i as int), "lambda"@)));
            assert(opt_dec_matches(repair, last_kv(args.subrange(0, i as int), "repair"@)));
        }
        i = i + 1;
    }
    proof {
        assert(args.subrange(0, args.len() as int) =~= args);
    }
    Ok((prob, lambda, repair))
}

/// Parses a basic-event declaration: the name token, then `key=value`
/// pairs.  `prob` gives a discrete probability; otherwise `lambda` is
/// required and `repair` attaches a monitored repair mode.
#[verifier::rlimit(100)]
#[verifier::spinoff_prover]
pub fn parse_basic_event(toks: &Vec<Vec<char>>) -> (r: Result<(String, BasicEvent), FtError>)
    requires
        toks@.len() >= 1,
    ensures
        r matches Ok(p) ==> {
            &&& p.0@ == strip_marks_spec(toks@[0]@)
            &&& kvs_ok(arg_views(toks@))
            &&& be_of_kvs(arg_views(toks@)) == Some(p.1)
            &&& be_wf(p.1)
        },
        r is Ok <==> (kvs_ok(arg_views(toks@)) && parsed_be_ok(arg_views(toks@))),
{
    let ghost args = arg_views(toks@);
    let scanned = match scan_kvs(toks) {
        Ok(p) => p,
        Err(e) => {
            return Err(e);
        },
    };
    proof {
        reveal(crate::dec::token_value_rel);
    }
    let prob = scanned.0;
    let lambda = scanned.1;
    let repair = scanned.2;
    let nm = chars_to_string(&strip_marks(&toks[0]));
    match prob {
        Some(p) => {
            if !crate::dec::dec_prob_ok(&p) {
                return Err(FtError::Parse(String::from_str("probability out of range")));
            }
            Ok((nm, BasicEvent::new_with_prob(p)))
        },
        None => match lambda {
            Some(l) => {
                if !dec_nonneg(&l) {
                    return Err(FtError::Parse(String::from_str("negative rate")));
                }
                let mut be = BasicEvent::new_with_rate(l);
                match repair {
                    Some(m) => {
                        if !dec_nonneg(&m) {
                            return Err(FtError::Parse(String::from_str("negative repair rate")));
                        }
                        be.with_repair_mode(RepairMode::Monitored(m));
                        Ok((nm, be))
                    },
                    None => Ok((nm, be)),
                }
            },
            None => Err(
                FtError::Parse(
                    String::from_str("a basic event needs a probability or a failure rate"),
                ),
            ),
        },
    }
}

/// The lowercase form of an ASCII letter; other characters stay unchanged.
pub open spec fn lower_char(c: char) -> char {
    if 'A' <= c && c <= 'Z' {
        (((c as u8) + 32) as char)
    } else {
        c
    }
}

/// The token with every ASCII letter lowercased.
pub open spec fn lower_spec(s: Seq<char>) -> Seq<char> {
    s.map_values(|c: char| lower_char(c))
}

/// Lowercases the ASCII letters of a token.
pub fn ascii_lower(s: &Vec<char>) -> (r: Vec<char>)
    ensures
        r@ == lower_spec(s@),
{
    let mut out: Vec<char> = Vec::new();
    let mut i: usize = 0;
    while i < s.len()
        invariant
            i <= s@.len(),
            out@.len() == i,
            forall|j: int| 0 <= j < i ==> out@[j] == lower_char(#[trigger] s@[j]),
        decreases s@.len() - i,
    {
        let c = s[i];
        if c >= 'A' && c <= 'Z' {
            out.push(((c as u8) + 32) as char);
        } else {
            out.push(c);
        }
        i = i + 1;
    }
    proof {
        assert(out@ =~= lower_spec(s@));
    }
    out
}

/// All size-`k` subsequences of the sequence, in lexicographic order of
/// positions.
pub open spec fn combs(s: Seq<NodeId>, k: nat) -> Seq<Seq<NodeId>>
    decreases s.len(),
{
    if k == 0 {
        seq![Seq::empty()]
    } else if s.len() == 0 {
        Seq::empty()
    } else {
        combs(s.drop_first(), (k - 1) as nat).map_values(|c: Seq<NodeId>| seq![s[0]] + c) + combs(
            s.drop_first(),
            k,
        )
    }
}

/// Enumerates the size-`k` subsequences of the identifiers from `from` on.
pub fn combinations(items: &Vec<NodeId>, from: usize, k: usize) -> (r: Vec<Vec<NodeId>>)
    requires
        from <= items@.len(),
    ensures
        r@.len() == combs(items@.subrange(from as int, items@.len() as int), k as nat).len(),
        forall|i: int|
            0 <= i < r@.len() ==> #[trigger] r@[i]@ == combs(
                items@.subrange(from as int, items@.len() as int),
                k as nat,
            )[i],
    decreases items@.len() - from,
{
    let ghost sub = items@.subrange(from as int, items@.len() as int);
    if k == 0 {
        let mut out: Vec<Vec<NodeId>> = Vec::new();
        out.push(Vec::new());
        proof {
            assert(out@[0]@ =~= Seq::<NodeId>::empty());
        }
        return out;
    }
    if from == items.len() {
        proof {
            assert(sub =~= Seq::<NodeId>::empty());
        }
        return Vec::new();
    }
    proof {
        assert(sub.drop_first() =~= items@.subrange(from + 1, items@.len() as int));
        assert(sub[0] == items@[from as int]);
    }
    let first = items[from];
    let with_first = combinations(items, from + 1, k - 1);
    let without = combinations(items, from + 1, k);
    let ghost mapped = combs(sub.drop_first(), (k - 1) as nat).map_values(
        |c: Seq<NodeId>| seq![sub[0]] + c,
    );
    let mut out: Vec<Vec<NodeId>> = Vec::new();
    let mut i: usize = 0;
    while i < with_first.len()
        invariant
            i <= with_first@.len(),
            out@.len() == i,
            first == sub[0],
            with_first@.len() == combs(sub.drop_first(), (k - 1) as nat).len(),
            forall|j: int|
                0 <= j < with_first@.len() ==> #[trigger] with_first@[j]@ == combs(
                    sub.drop_first(),
                    (k - 1) as nat,
                )[j],
            mapped == combs(sub.drop_first(), (k - 1) as nat).map_values(
                |c: Seq<NodeId>| seq![sub[0]] + c,
            ),
            forall|j: int| 0 <= j < i ==> #[trigger] out@[j]@ == mapped[j],
        decreases with_first@.len() - i,
    {
        let mut row: Vec<NodeId> = Vec::new();
        row.push(first);
        let mut j: usize = 0;
        while j < with_first[i].len()
            invariant
                i < with_first@.len(),
                j <= with_first@[i as int]@.len(),
                row@ == seq![first] + with_first@[i as int]@.subrange(0, j as int),
            decreases with_first@[i as int]@.len() - j,
        {
            row.push(with_first[i][j]);
            proof {
                assert((seq![first] + with_first@[i as int]@.subrange(0, j as int)).push(
                    with_first@[i as int]@[j as int],
                ) =~= seq![first] + with_first@[i as int]@.subrange(0, j + 1));
            }
            j = j + 1;
        }
        proof {
            assert(with_first@[i as int]@.subrange(0, with_first@[i as int]@.len() as int)
                =~= with_first@[i as int]@);
            assert(row@ == seq![sub[0]] + combs(sub.drop_first(), (k - 1) as nat)[i as int]);
        }
        out.push(row);
        i = i + 1;
    }
    let mut i2: usize = 0;
    let ghost base = out@.len() as int;
    while i2 < without.len()
        invariant
            i2 <= without@.len(),
            out@.len() == base + i2,
            base == mapped.len(),
            forall|j: int| 0 <= j < base ==> #[trigger] out@[j]@ == mapped[j],
            without@.len() == combs(sub.drop_first(), k as nat).len(),
            forall|j: int|
                0 <= j < without@.len() ==> #[trigger] without@[j]@ == combs(
                    sub.drop_first(),
                    k as nat,
                )[j],
            forall|j: int|
                base <= j < out@.len() ==> #[trigger] out@[j]@ == combs(sub.drop_first(), k as nat)[
                j - base],
        decreases without@.len() - i2,
    {
        let mut row: Vec<NodeId> = Vec::new();
        let mut j: usize = 0;
        while j < without[i2].len()
            invariant
                i2 < without@.len(),
                j <= without@[i2 as int]@.len(),
                row@ == without@[i2 as int]@.subrange(0, j as int),
            decreases without@[i2 as int]@.len() - j,
        {
            row.push(without[i2][j]);
            proof {
                assert(without@[i2 as int]@.subrange(0, j as int).push(
                    without@[i2 as int]@[j as int],
                ) =~= without@[i2 as int]@.subrange(0, j + 1));
            }
            j = j + 1;
        }
        proof {
            assert(without@[i2 as int]@.subrange(0, without@[i2 as int]@.len() as int)
                =~= without@[i2 as int]@);
        }
        out.push(row);
        i2 = i2 + 1;
    }
    proof {
        assert(combs(sub, k as nat) == mapped + combs(sub.drop_first(), k as nat));
        assert forall|j: int| 0 <= j < out@.len() implies #[trigger] out@[j]@ == combs(
            sub,
            k as nat,
        )[j] by {
            if j < base {
                assert(out@[j]@ == mapped[j]);
            } else {
                assert(out@[j]@ == combs(sub.drop_first(), k as nat)[j - base]);
            }
        }
    }
    out
}

/// Every entry of every enumerated subsequence comes from the sequence.
proof fn lemma_combs_elems(s: Seq<NodeId>, k: nat)
    ensures
        forall|c: int, j: int|
            0 <= c < combs(s, k).len() && 0 <= j < combs(s, k)[c].len() ==> s.contains(
                #[trigger] combs(s, k)[c][j],
            ),
    decreases s.len(),
{
    if k == 0 {
    } else if s.len() == 0 {
    } else {
        lemma_combs_elems(s.drop_first(), (k - 1) as nat);
        lemma_combs_elems(s.drop_first(), k);
        let mapped = combs(s.drop_first(), (k - 1) as nat).map_values(
            |c: Seq<NodeId>| seq![s[0]] + c,
        );
        assert forall|c: int, j: int|
            0 <= c < combs(s, k).len() && 0 <= j < combs(s, k)[c].len() implies s.contains(
            #[trigger] combs(s, k)[c][j],
        ) by {
            if c < mapped.len() {
                assert(combs(s, k)[c] == mapped[c]);
                assert(mapped[c] == seq![s[0]] + combs(s.drop_first(), (k - 1) as nat)[c]);
                if j == 0 {
                    assert(combs(s, k)[c][j] == s[0]);
                    assert(s.contains(s[0]));
                } else {
                    let x = combs(s.drop_first(), (k - 1) as nat)[c][j - 1];
                    assert(s.drop_first().contains(x));
                    let w = choose|w: int|
                        0 <= w < s.drop_first().len() && s.drop_first()[w] == x;
                    assert(s[w + 1] == x);
                    assert(s.contains(x));
                }
            } else {
                let x = combs(s.drop_first(), k)[c - mapped.len()][j];
                assert(combs(s, k)[c] == combs(s.drop_first(), k)[c - mapped.len()]);
                assert(s.drop_first().contains(x));
                let w = choose|w: int| 0 <= w < s.drop_first().len() && s.drop_first()[w] == x;
                assert(s[w + 1] == x);
                assert(s.contains(x));
            }
        }
    }
}

/// Whether the token opens a comment line.
fn is_comment_token(t: &Vec<char>) -> (r: bool)
    ensures
        r == (t@.len() >= 2 && t@[0] == '/' && t@[1] == '/'),
{
    t.len() >= 2 && t[0] == '/' && t[1] == '/'
}

/// The index of the first `of` inside an operator token, when there is one.
fn find_of(t: &Vec<char>) -> (r: Option<usize>)
    ensures
        r matches Some(i) ==> i + 2 <= t@.len() && t@[i as int] == 'o' && t@[i + 1] == 'f'
            && forall|j: int| 0 <= j < i ==> !(#[trigger] t@[j] == 'o' && t@[j + 1] == 'f'),
        r is None ==> forall|i: int| 0 <= i && i + 1 < t@.len() ==> !(#[trigger] t@[i] == 'o' && t@[i + 1] == 'f'),
{
    let n = t.len();
    if n < 2 {
        return None;
    }
    let mut i: usize = 0;
    while i < n - 1
        invariant
            n == t@.len(),
            n >= 2,
            i <= n - 1,
            forall|j: int| 0 <= j < i ==> !(#[trigger] t@[j] == 'o' && t@[j + 1] == 'f'),
        decreases n - i,
    {
        if t[i] == 'o' && t[i + 1] == 'f' {
            return Some(i);
        }
        i = i + 1;
    }
    None
}

/// Parses a run of digits as a machine integer.
fn parse_usize(s: &Vec<char>) -> (r: Option<usize>)
    ensures
        r matches Some(v) ==> crate::dec::all_digits(s@) && s@.len() >= 1 && v
            == crate::dec::val_chars(s@),
        r is None <==> !(crate::dec::all_digits(s@) && s@.len() >= 1 && crate::dec::val_chars(s@)
            <= usize::MAX),
{
    if s.len() == 0 {
        return None;
    }
    let mut v: usize = 0;
    let mut i: usize = 0;
    while i < s.len()
        invariant
            i <= s@.len(),
            crate::dec::all_digits(s@.subrange(0, i as int)),
            v == crate::dec::val_chars(s@.subrange(0, i as int)),
        decreases s@.len() - i,
    {
        let c = s[i];
        proof {
            assert(s@.subrange(0, i as int) =~= s@.subrange(0, i + 1).drop_last());
            assert(s@.subrange(0, i + 1).last() == s@[i as int]);
        }
        if !(c >= '0' && c <= '9') {
            proof {
                assert(!crate::dec::is_digit(s@[i as int]));
            }
            return None;
        }
        let d = crate::dec::digit_val_exec(c);
        proof {
            crate::dec::lemma_val_chars_seq_prefix(s@, 0, i + 1, s@.len() as int);
            assert(s@.subrange(0, s@.len() as int) =~= s@);
        }
        let nv = match v.checked_mul(10) {
            Some(w) => match w.checked_add(d as usize) {
                Some(x) => x,
                None => {
                    return None;
                },
            },
            None => {
                return None;
            },
        };
        v = nv;
        i = i + 1;
    }
    proof {
        assert(s@.subrange(0, s@.len() as int) =~= s@);
    }
    Some(v)
}

/// Copies a list of names.
fn clone_strings(v: &Vec<String>) -> (r: Vec<String>)
    ensures
        r@.len() == v@.len(),
        forall|i: int| 0 <= i < v@.len() ==> #[trigger] r@[i]@ == v@[i]@,
{
    let mut out: Vec<String> = Vec::new();
    let mut i: usize = 0;
    while i < v.len()
        invariant
            i <= v@.len(),
            out@.len() == i,
            forall|j: int| 0 <= j < i ==> #[trigger] out@[j]@ == v@[j]@,
        decreases v@.len() - i,
    {
        out.push(v[i].clone());
        i = i + 1;
    }
    out
}

/// The first value stored under the key, scanning from the front.
pub open spec fn assoc_first(m: Seq<(String, String)>, key: Seq<char>) -> Option<Seq<char>>
    decreases m.len(),
{
    if m.len() == 0 {
        None
    } else if m[0].0@ == key {
        Some(m[0].1@)
    } else {
        assoc_first(m.drop_first(), key)
    }
}

/// The name a rewrite chain reaches after at most `fuel` steps.
pub open spec fn chase(m: Seq<(String, String)>, x: Seq<char>, fuel: nat) -> Seq<char>
    decreases fuel,
{
    if fuel == 0 {
        x
    } else {
        match assoc_first(m, x) {
            Some(v) => chase(m, v, (fuel - 1) as nat),
            None => x,
        }
    }
}

/// The chain from `x` ends on a name that is no key, within the table's
/// own length: the transitive closure exists.
pub open spec fn chain_resolved(m: Seq<(String, String)>, x: Seq<char>) -> bool {
    assoc_first(m, chase(m, x, m.len())) is None
}

/// One argument after the single-child rewrite: a key is replaced by the
/// terminal of its chain, any other name stays.
pub open spec fn rewritten(m: Seq<(String, String)>, a: Seq<char>) -> Seq<char> {
    match assoc_first(m, a) {
        Some(v) => chase(m, v, m.len()),
        None => a,
    }
}

/// `assoc_first` over plain views, for contracts that speak of the
/// rewrite map as folded from the input lines.
pub open spec fn vassoc_first(m: Seq<(Seq<char>, Seq<char>)>, key: Seq<char>) -> Option<Seq<char>>
    decreases m.len(),
{
    if m.len() == 0 {
        None
    } else if m[0].0 == key {
        Some(m[0].1)
    } else {
        vassoc_first(m.drop_first(), key)
    }
}

/// `chase` over plain views.
pub open spec fn vchase(m: Seq<(Seq<char>, Seq<char>)>, x: Seq<char>, fuel: nat) -> Seq<char>
    decreases fuel,
{
    if fuel == 0 {
        x
    } else {
        match vassoc_first(m, x) {
            Some(v) => vchase(m, v, (fuel - 1) as nat),
            None => x,
        }
    }
}

/// `rewritten` over plain views: the terminal of a name's rewrite chain.
pub open spec fn vrewritten(m: Seq<(Seq<char>, Seq<char>)>, a: Seq<char>) -> Seq<char> {
    match vassoc_first(m, a) {
        Some(v) => vchase(m, v, m.len()),
        None => a,
    }
}

proof fn lemma_vassoc(m: Seq<(String, String)>, key: Seq<char>)
    ensures
        vassoc_first(m.map_values(|q: (String, String)| (q.0@, q.1@)), key) == assoc_first(
            m,
            key,
        ),
    decreases m.len(),
{
    if m.len() > 0 {
        lemma_vassoc(m.drop_first(), key);
        assert(m.drop_first().map_values(|q: (String, String)| (q.0@, q.1@)) =~= m.map_values(
            |q: (String, String)| (q.0@, q.1@),
        ).drop_first());
    }
}

proof fn lemma_vchase(m: Seq<(String, String)>, x: Seq<char>, fuel: nat)
    ensures
        vchase(m.map_values(|q: (String, String)| (q.0@, q.1@)), x, fuel) == chase(m, x, fuel),
    decreases fuel,
{
    if fuel > 0 {
        lemma_vassoc(m, x);
        match assoc_first(m, x) {
            Some(v) => {
                lemma_vchase(m, v, (fuel - 1) as nat);
            },
            None => {},
        }
    }
}

proof fn lemma_vrewritten(m: Seq<(String, String)>, a: Seq<char>)
    ensures
        vrewritten(m.map_values(|q: (String, String)| (q.0@, q.1@)), a) == rewritten(m, a),
{
    lemma_vassoc(m, a);
    match assoc_first(m, a) {
        Some(v) => {
            lemma_vchase(m, v, m.len() as nat);
        },
        None => {},
    }
}

/// Without the simplification no line records a rewrite, so the folded
/// map is empty.
proof fn lemma_mapper_fold_nosimp(lines: Seq<String>, i: int)
    ensures
        mapper_fold(lines, i, false) == Seq::<(Seq<char>, Seq<char>)>::empty(),
    decreases i,
{
    if i > 0 {
        lemma_mapper_fold_nosimp(lines, i - 1);
    }
}

proof fn lemma_assoc_value(m: Seq<(String, String)>, key: Seq<char>)
    requires
        assoc_first(m, key) is Some,
    ensures
        exists|k: int|
            0 <= k < m.len() && (#[trigger] m[k]).1@ == assoc_first(m, key)->Some_0,
    decreases m.len(),
{
    if m[0].0@ == key {
        assert(m[0].1@ == assoc_first(m, key)->Some_0);
    } else {
        lemma_assoc_value(m.drop_first(), key);
        let k = choose|k: int|
            0 <= k < m.drop_first().len() && (#[trigger] m.drop_first()[k]).1@ == assoc_first(
                m.drop_first(),
                key,
            )->Some_0;
        assert(m[k + 1].1@ == assoc_first(m, key)->Some_0);
    }
}

/// One step of a chain: a present key advances the chase by one.
proof fn lemma_chase_step(m: Seq<(String, String)>, x: Seq<char>, k: nat, v: Seq<char>)
    requires
        assoc_first(m, chase(m, x, k)) == Some(v),
    ensures
        chase(m, x, k + 1) == v,
    decreases k,
{
    if k == 0 {
        assert(chase(m, x, 0) == x);
        assert(chase(m, v, 0) == v);
        assert(chase(m, x, 1) == v);
    } else {
        match assoc_first(m, x) {
            Some(v0) => {
                lemma_chase_step(m, v0, (k - 1) as nat, v);
            },
            None => {
                assert(chase(m, x, k) == x);
                lemma_chase_stable(m, x, 0, k + 1);
            },
        }
    }
}

/// The node after the rewrite pass: a placeholder keeps its name and its
/// operator and has each argument replaced through the closed rewrite
/// table; every other node stays as it was.
pub open spec fn placeholder_rewritten(
    before: Node,
    after: Node,
    m: Seq<(String, String)>,
) -> bool {
    match before {
        Node::PlaceHolder(nm, op, args) => {
            &&& after is PlaceHolder
            &&& after->PlaceHolder_0@ == nm@
            &&& after->PlaceHolder_1@ == op@
            &&& after->PlaceHolder_2@.len() == args@.len()
            &&& forall|j: int|
                0 <= j < args@.len() ==> (#[trigger] after->PlaceHolder_2@[j])@ == rewritten(
                    m,
                    args@[j]@,
                )
        },
        _ => after == before,
    }
}

/// A resolved chain does not move under more fuel.
proof fn lemma_chase_stable(m: Seq<(String, String)>, x: Seq<char>, k: nat, k2: nat)
    requires
        assoc_first(m, chase(m, x, k)) is None,
        k2 >= k,
    ensures
        chase(m, x, k2) == chase(m, x, k),
    decreases k2,
{
    if k == 0 {
        if k2 > 0 {
            assert(chase(m, x, k2) == x);
        }
    } else {
        match assoc_first(m, x) {
            Some(v) => {
                lemma_chase_stable(m, v, (k - 1) as nat, (k2 - 1) as nat);
            },
            None => {
                assert(chase(m, x, k) == x);
                assert(chase(m, x, k2) == x);
            },
        }
    }
}

/// The index of the first entry carrying the key, or the length.
pub open spec fn assoc_idx(m: Seq<(String, String)>, key: Seq<char>) -> int
    decreases m.len(),
{
    if m.len() == 0 {
        0
    } else if m[0].0@ == key {
        0
    } else {
        1 + assoc_idx(m.drop_first(), key)
    }
}

proof fn lemma_assoc_idx(m: Seq<(String, String)>, key: Seq<char>)
    ensures
        0 <= assoc_idx(m, key) <= m.len(),
        assoc_idx(m, key) < m.len() ==> m[assoc_idx(m, key)].0@ == key && assoc_first(m, key)
            == Some(m[assoc_idx(m, key)].1@),
        assoc_idx(m, key) == m.len() ==> assoc_first(m, key) is None,
        forall|j: int| 0 <= j < assoc_idx(m, key) ==> (#[trigger] m[j]).0@ != key,
    decreases m.len(),
{
    if m.len() > 0 && m[0].0@ != key {
        lemma_assoc_idx(m.drop_first(), key);
        assert forall|j: int| 0 <= j < assoc_idx(m, key) implies (#[trigger] m[j]).0@ != key by {
            if j > 0 {
                assert(m.drop_first()[j - 1].0@ != key);
            }
        }
        if assoc_idx(m, key) < m.len() {
            assert(m.drop_first()[assoc_idx(m, key) - 1] == m[assoc_idx(m, key)]);
        }
    }
}

/// A table with the same keys in the same order looks names up at the same
/// entry.
proof fn lemma_assoc_same_keys(m: Seq<(String, String)>, c: Seq<(String, String)>, key: Seq<char>)
    requires
        c.len() == m.len(),
        forall|k: int| 0 <= k < m.len() ==> (#[trigger] c[k]).0@ == m[k].0@,
    ensures
        assoc_idx(c, key) == assoc_idx(m, key),
        assoc_first(c, key) is Some <==> assoc_first(m, key) is Some,
        assoc_first(c, key) is Some ==> assoc_first(c, key) == Some(
            c[assoc_idx(m, key)].1@,
        ),
    decreases m.len(),
{
    lemma_assoc_idx(m, key);
    lemma_assoc_idx(c, key);
    if m.len() > 0 {
        assert(c[0].0@ == m[0].0@);
        if m[0].0@ != key {
            assert forall|k: int|
                0 <= k < m.drop_first().len() implies (#[trigger] c.drop_first()[k]).0@
                == m.drop_first()[k].0@ by {
                assert(c[k + 1].0@ == m[k + 1].0@);
            }
            lemma_assoc_same_keys(m.drop_first(), c.drop_first(), key);
        }
    }
}

/// Looks a name up in a rewrite table.
fn assoc_get(m: &Vec<(String, String)>, key: &String) -> (r: Option<String>)
    ensures
        r matches Some(s) ==> assoc_first(m@, key@) == Some(s@),
        r is None <==> assoc_first(m@, key@) is None,
{
    let mut i: usize = 0;
    proof {
        assert(m@.subrange(0, m@.len() as int) =~= m@);
    }
    while i < m.len()
        invariant
            i <= m@.len(),
            assoc_first(m@, key@) == assoc_first(m@.subrange(i as int, m@.len() as int), key@),
        decreases m@.len() - i,
    {
        proof {
            assert(m@.subrange(i as int, m@.len() as int).drop_first() =~= m@.subrange(
                i + 1,
                m@.len() as int,
            ));
            assert(m@.subrange(i as int, m@.len() as int)[0] == m@[i as int]);
        }
        if m[i].0.eq(key) {
            return Some(m[i].1.clone());
        }
        i = i + 1;
    }
    proof {
        assert(m@.subrange(m@.len() as int, m@.len() as int) =~= Seq::<(String, String)>::empty());
    }
    None
}

/// Every node is still a leaf or a placeholder: the state between the
/// reading pass and placeholder resolution.
pub open spec fn all_be_or_ph(nodes: Seq<Node>) -> bool {
    forall|i: int|
        0 <= i < nodes.len() ==> (#[trigger] nodes[i]) is BasicEvent || nodes[i] is PlaceHolder
}

/// The normalizer finished: the table is consistent, the root resolves,
/// no placeholder remains and no unexpanded voting gate remains.
pub open spec fn norm_done(n: FaultTreeNormalizer) -> bool {
    &&& norm_wf(n)
    &&& n.root_id < n.nodes@.len()
    &&& forall|i: int|
        0 <= i < n.nodes@.len() ==> !((#[trigger] n.nodes@[i]) is PlaceHolder) && !(n.nodes@[i]
            is Vot)
}

/// The parsed value stands for the text the declaration carries.
pub open spec fn opt_dec_matches(d: Option<Dec>, t: Option<Seq<char>>) -> bool {
    match (d, t) {
        (None, None) => true,
        (Some(dv), Some(tv)) => token_value_rel(tv, dv),
        _ => false,
    }
}

/// The declaration describes a basic event whose parameters are in range.
pub open spec fn parsed_be_ok(args: Seq<Seq<char>>) -> bool {
    match be_of_kvs(args) {
        Some(be) => be_wf(be),
        None => false,
    }
}



/// The index of the first `of` inside an operator, or past the end.
pub open spec fn of_idx(t: Seq<char>) -> int
    decreases t.len(),
{
    if t.len() < 2 {
        t.len() as int
    } else if t[0] == 'o' && t[1] == 'f' {
        0
    } else {
        1 + of_idx(t.drop_first())
    }
}

/// Whether the operator holds an `of` pair.
pub open spec fn has_of(t: Seq<char>) -> bool {
    of_idx(t) + 1 < t.len()
}

proof fn lemma_of_idx(t: Seq<char>)
    ensures
        0 <= of_idx(t) <= t.len(),
        of_idx(t) + 1 < t.len() ==> t[of_idx(t)] == 'o' && t[of_idx(t) + 1] == 'f',
        forall|j: int|
            0 <= j && j + 1 < t.len() && j < of_idx(t) ==> !(#[trigger] t[j] == 'o' && t[j + 1]
                == 'f'),
    decreases t.len(),
{
    if t.len() >= 2 && !(t[0] == 'o' && t[1] == 'f') {
        lemma_of_idx(t.drop_first());
        assert forall|j: int|
            0 <= j && j + 1 < t.len() && j < of_idx(t) implies !(#[trigger] t[j] == 'o' && t[j
            + 1] == 'f') by {
            if j > 0 {
                assert(!(t.drop_first()[j - 1] == 'o' && t.drop_first()[j] == 'f'));
            }
        }
    }
}

/// The threshold digits of a `<k>of<n>` operator.
pub open spec fn kofn_k_txt(t: Seq<char>) -> Seq<char> {
    t.subrange(0, of_idx(t))
}

/// The width digits of a `<k>of<n>` operator.
pub open spec fn kofn_n_txt(t: Seq<char>) -> Seq<char> {
    t.subrange(of_idx(t) + 2, t.len() as int)
}

/// Both number parts of a `<k>of<n>` operator are digit runs that fit the
/// machine.
pub open spec fn kofn_numbers_ok(t: Seq<char>) -> bool {
    &&& crate::dec::all_digits(kofn_k_txt(t)) && kofn_k_txt(t).len() >= 1 && crate::dec::val_chars(
        kofn_k_txt(t),
    ) <= usize::MAX
    &&& crate::dec::all_digits(kofn_n_txt(t)) && kofn_n_txt(t).len() >= 1 && crate::dec::val_chars(
        kofn_n_txt(t),
    ) <= usize::MAX
}

/// Every argument name of the placeholder resolves in the table.
pub open spec fn args_resolve(tbl: Seq<(String, NodeId)>, args: Seq<String>) -> bool {
    forall|j: int| 0 <= j < args.len() ==> lookup_spec(tbl, (#[trigger] args[j])@) is Some
}

/// The identifiers the argument names resolve to, in order.
pub open spec fn resolved_ids(tbl: Seq<(String, NodeId)>, args: Seq<String>) -> Seq<NodeId> {
    Seq::new(args.len(), |j: int| lookup_spec(tbl, args[j]@)->Some_0)
}

/// The auxiliary OR gates of the `k`-of-`n` expansion, deepest pivot
/// first: for each pivot, taken from the back, one gate per `m`-subset of
/// the identifiers before it, the pivot in front.
pub open spec fn kofn_aux(ids: Seq<NodeId>, m: nat) -> Seq<Seq<NodeId>>
    decreases ids.len(),
{
    if ids.len() <= m {
        Seq::empty()
    } else {
        Seq::new(combs(ids.drop_last(), m).len(), |t: int| seq![ids.last()] + combs(
            ids.drop_last(),
            m,
        )[t]) + kofn_aux(ids.drop_last(), m)
    }
}

/// How many entries of the sequence satisfy `f`, occurrences counted.
pub open spec fn count_true(f: spec_fn(NodeId) -> bool, s: Seq<NodeId>) -> int
    decreases s.len(),
{
    if s.len() == 0 {
        0
    } else {
        count_true(f, s.drop_last()) + if f(s.last()) {
            1int
        } else {
            0int
        }
    }
}

/// Some entry of the group satisfies `f`: the truth of one OR gate under
/// the assignment `f`.
pub open spec fn seq_hit(f: spec_fn(NodeId) -> bool, g: Seq<NodeId>) -> bool
    decreases g.len(),
{
    if g.len() == 0 {
        false
    } else {
        f(g.last()) || seq_hit(f, g.drop_last())
    }
}

/// Every listed group holds an entry satisfying `f`: the truth of a
/// conjunction of OR gates under the assignment `f`.
pub open spec fn gates_hit(f: spec_fn(NodeId) -> bool, gs: Seq<Seq<NodeId>>) -> bool
    decreases gs.len(),
{
    if gs.len() == 0 {
        true
    } else {
        seq_hit(f, gs.last()) && gates_hit(f, gs.drop_last())
    }
}

proof fn lemma_count_le(f: spec_fn(NodeId) -> bool, s: Seq<NodeId>)
    ensures
        0 <= count_true(f, s) <= s.len(),
    decreases s.len(),
{
    if s.len() > 0 {
        lemma_count_le(f, s.drop_last());
    }
}

proof fn lemma_count_first(f: spec_fn(NodeId) -> bool, s: Seq<NodeId>)
    requires
        s.len() > 0,
    ensures
        count_true(f, s) == (if f(s[0]) {
            1int
        } else {
            0int
        }) + count_true(f, s.drop_first()),
    decreases s.len(),
{
    if s.len() == 1 {
        assert(s.drop_first() =~= Seq::<NodeId>::empty());
        assert(s.drop_last() =~= Seq::<NodeId>::empty());
        assert(s.last() == s[0]);
    } else {
        lemma_count_first(f, s.drop_last());
        assert(s.drop_last().drop_first() =~= s.drop_first().drop_last());
        assert(s.drop_last()[0] == s[0]);
        assert(s.drop_first().last() == s.last());
        assert(count_true(f, s) == count_true(f, s.drop_last()) + (if f(s.last()) {
            1int
        } else {
            0int
        }));
        assert(count_true(f, s.drop_first()) == count_true(f, s.drop_first().drop_last()) + (
        if f(s.drop_first().last()) {
            1int
        } else {
            0int
        }));
    }
}

proof fn lemma_gates_hit_concat(f: spec_fn(NodeId) -> bool, a: Seq<Seq<NodeId>>, b: Seq<
    Seq<NodeId>,
>)
    ensures
        gates_hit(f, a + b) <==> (gates_hit(f, a) && gates_hit(f, b)),
    decreases b.len(),
{
    if b.len() == 0 {
        assert(a + b =~= a);
    } else {
        lemma_gates_hit_concat(f, a, b.drop_last());
        assert((a + b).drop_last() =~= a + b.drop_last());
        assert((a + b).last() == b.last());
    }
}

proof fn lemma_seq_hit_pivot(f: spec_fn(NodeId) -> bool, x: NodeId, c: Seq<NodeId>)
    ensures
        seq_hit(f, seq![x] + c) <==> (f(x) || seq_hit(f, c)),
    decreases c.len(),
{
    if c.len() == 0 {
        assert(seq![x] + c =~= seq![x]);
        assert((seq![x]).last() == x);
        assert((seq![x]).drop_last() =~= Seq::<NodeId>::empty());
        assert(!seq_hit(f, Seq::<NodeId>::empty()));
        assert(seq_hit(f, seq![x]) == (f(x) || seq_hit(f, (seq![x]).drop_last())));
    } else {
        lemma_seq_hit_pivot(f, x, c.drop_last());
        assert((seq![x] + c).drop_last() =~= seq![x] + c.drop_last());
        assert((seq![x] + c).last() == c.last());
    }
}

proof fn lemma_gates_hit_pivot(f: spec_fn(NodeId) -> bool, x: NodeId, cs: Seq<Seq<NodeId>>)
    ensures
        gates_hit(f, cs.map_values(|c: Seq<NodeId>| seq![x] + c)) <==> (f(x) || gates_hit(f, cs)),
    decreases cs.len(),
{
    let ms = cs.map_values(|c: Seq<NodeId>| seq![x] + c);
    if cs.len() == 0 {
        assert(ms =~= Seq::<Seq<NodeId>>::empty());
    } else {
        lemma_gates_hit_pivot(f, x, cs.drop_last());
        assert(ms.drop_last() =~= cs.drop_last().map_values(|c: Seq<NodeId>| seq![x] + c));
        assert(ms.last() == seq![x] + cs.last());
        lemma_seq_hit_pivot(f, x, cs.last());
    }
}

proof fn lemma_combs_hit(f: spec_fn(NodeId) -> bool, s: Seq<NodeId>, m: nat)
    ensures
        gates_hit(f, combs(s, m)) <==> count_true(f, s) >= s.len() - m + 1,
    decreases s.len(),
{
    lemma_count_le(f, s);
    if m == 0 {
        assert(combs(s, m) == seq![Seq::<NodeId>::empty()]);
        assert(combs(s, m)[0].len() == 0);
        assert(!gates_hit(f, combs(s, m)));
    } else if s.len() == 0 {
        assert(combs(s, m) == Seq::<Seq<NodeId>>::empty());
        assert(gates_hit(f, combs(s, m)));
    } else {
        let tail = s.drop_first();
        lemma_count_first(f, s);
        lemma_count_le(f, tail);
        lemma_combs_hit(f, tail, (m - 1) as nat);
        lemma_combs_hit(f, tail, m);
        let left = combs(tail, (m - 1) as nat).map_values(|c: Seq<NodeId>| seq![s[0]] + c);
        let right = combs(tail, m);
        assert(combs(s, m) == left + right);
        lemma_gates_hit_concat(f, left, right);
        lemma_gates_hit_pivot(f, s[0], combs(tail, (m - 1) as nat));
    }
}

/// The k-of-n expansion law: the conjunction of the auxiliary OR gates
/// `kofn_aux(ids, m)` holds under an assignment exactly when at least
/// `ids.len() - m` of the arguments hold, occurrences counted.  With
/// `m == n - k` this says the expansion means `at least k of the n
/// arguments`.
pub proof fn lemma_kofn_exact(f: spec_fn(NodeId) -> bool, ids: Seq<NodeId>, m: nat)
    ensures
        gates_hit(f, kofn_aux(ids, m)) <==> count_true(f, ids) >= ids.len() - m,
    decreases ids.len(),
{
    lemma_count_le(f, ids);
    if ids.len() <= m {
        assert(kofn_aux(ids, m) == Seq::<Seq<NodeId>>::empty());
        assert(gates_hit(f, kofn_aux(ids, m)));
    } else {
        let head = ids.drop_last();
        let pivots = Seq::new(combs(head, m).len(), |t: int| seq![ids.last()] + combs(head, m)[t]);
        assert(kofn_aux(ids, m) == pivots + kofn_aux(head, m));
        assert(pivots =~= combs(head, m).map_values(|c: Seq<NodeId>| seq![ids.last()] + c));
        lemma_kofn_exact(f, head, m);
        lemma_combs_hit(f, head, m);
        lemma_count_le(f, head);
        lemma_gates_hit_concat(f, pivots, kofn_aux(head, m));
        lemma_gates_hit_pivot(f, ids.last(), combs(head, m));
        assert(count_true(f, ids) == count_true(f, head) + (if f(ids.last()) {
            1int
        } else {
            0int
        }));
    }
}

/// A placeholder whose operator carries an `of`, the only shape whose
/// resolution can append auxiliary nodes.
pub open spec fn expanding_ph(nd: Node) -> bool {
    nd is PlaceHolder && has_of(nd->PlaceHolder_1@)
}

/// The resolution conditions of one placeholder: every argument name is
/// known, and the operator is a gate word or a well-formed voting shape.
pub open spec fn ph_plan_ok(
    tbl: Seq<(String, NodeId)>,
    nd: Node,
    keep_vot: bool,
) -> bool {
    match nd {
        Node::PlaceHolder(_, op, args) => {
            let o = op@;
            &&& args_resolve(tbl, args@)
            &&& if o == "or"@ || o == "xor"@ || o == "and"@ {
                true
            } else if o == "not"@ {
                args@.len() == 1
            } else {
                &&& has_of(o)
                &&& kofn_numbers_ok(o)
                &&& args@.len() == crate::dec::val_chars(kofn_n_txt(o))
                &&& 1 <= crate::dec::val_chars(kofn_k_txt(o)) <= crate::dec::val_chars(
                    kofn_n_txt(o),
                )
                &&& ((1 < crate::dec::val_chars(kofn_k_txt(o)) < crate::dec::val_chars(
                    kofn_n_txt(o),
                ) && keep_vot) ==> crate::dec::val_chars(kofn_k_txt(o)) <= i64::MAX)
            }
        },
        _ => true,
    }
}

/// The conjunction gate and the appended run that replace a proper voting
/// gate: the children point at a fresh contiguous run holding one OR gate
/// per enumerated subset.
pub open spec fn expansion_at(
    after: Node,
    finals: Seq<Node>,
    len0: int,
    aux: Seq<Seq<NodeId>>,
    b: int,
) -> bool {
    &&& len0 <= b && b + aux.len() <= finals.len()
    &&& after is And
    &&& node_children(after) == Seq::new(aux.len(), |t: int| (b + t) as NodeId)
    &&& forall|t: int|
        0 <= t < aux.len() ==> (#[trigger] finals[b + t]) is Or && node_children(finals[b + t])
            == aux[t]
}

/// Some fresh run carries the expansion.
pub open spec fn expanded(after: Node, finals: Seq<Node>, len0: int, aux: Seq<Seq<NodeId>>) -> bool {
    exists|b: int| #[trigger] expansion_at(after, finals, len0, aux, b)
}

/// What one placeholder becomes: the operator word picks the variant,
/// the children are the identifiers the argument names resolve to, and a
/// proper voting gate either stays a voting node or becomes the
/// conjunction of a fresh, contiguous run of auxiliary OR gates over the
/// `(n-k)`-subsets, pivot in front.
pub open spec fn ph_resolved(
    tbl: Seq<(String, NodeId)>,
    before: Node,
    after: Node,
    finals: Seq<Node>,
    len0: int,
    keep_vot: bool,
) -> bool {
    match before {
        Node::PlaceHolder(_, op, args) => {
            let o = op@;
            let ids = resolved_ids(tbl, args@);
            if o == "or"@ {
                after is Or && node_children(after) == ids
            } else if o == "xor"@ {
                after is Xor && node_children(after) == ids
            } else if o == "and"@ {
                after is And && node_children(after) == ids
            } else if o == "not"@ {
                after is Not && node_children(after) == ids
            } else {
                let k = crate::dec::val_chars(kofn_k_txt(o));
                let n = crate::dec::val_chars(kofn_n_txt(o));
                if k == n {
                    after is And && node_children(after) == ids
                } else if k == 1 {
                    after is Or && node_children(after) == ids
                } else if keep_vot {
                    after is Vot && after->Vot_0 == k && node_children(after) == ids
                } else {
                    expanded(after, finals, len0, kofn_aux(ids, (n - k) as nat))
                }
            }
        },
        _ => after == before,
    }
}

/// The children-lists of the run of auxiliary gates appended from `b0`.
pub open spec fn appended_aux(nodes: Seq<Node>, b0: int, cnt: int) -> Seq<Seq<NodeId>> {
    Seq::new(cnt as nat, |t: int| node_children(nodes[b0 + t]))
}

/// Appending one auxiliary gate extends the appended run by its children.
proof fn lemma_aux_extend(pre: Seq<Node>, now: Seq<Node>, b0: int, cnt: int)
    requires
        0 <= b0,
        0 <= cnt,
        b0 + cnt == pre.len(),
        now.len() == pre.len() + 1,
        forall|i: int| 0 <= i < pre.len() ==> #[trigger] now[i] == pre[i],
    ensures
        appended_aux(now, b0, cnt + 1) == appended_aux(pre, b0, cnt).push(
            node_children(now[b0 + cnt]),
        ),
{
    assert(appended_aux(now, b0, cnt + 1) =~= appended_aux(pre, b0, cnt).push(
        node_children(now[b0 + cnt]),
    ));
}

/// A resolved placeholder stays resolved while the tree only grows and
/// only entries below the declared region change.
proof fn lemma_ph_resolved_stable(
    tbl: Seq<(String, NodeId)>,
    before: Node,
    after: Node,
    f1: Seq<Node>,
    f2: Seq<Node>,
    len0: int,
    keep_vot: bool,
)
    requires
        ph_resolved(tbl, before, after, f1, len0, keep_vot),
        f2.len() >= f1.len(),
        forall|i: int| len0 <= i < f1.len() ==> #[trigger] f2[i] == f1[i],
    ensures
        ph_resolved(tbl, before, after, f2, len0, keep_vot),
{
    match before {
        Node::PlaceHolder(_, op, args) => {
            let o = op@;
            if o == "or"@ || o == "xor"@ || o == "and"@ || o == "not"@ {
            } else {
                let k = crate::dec::val_chars(kofn_k_txt(o));
                let n = crate::dec::val_chars(kofn_n_txt(o));
                if k == n || k == 1 || keep_vot {
                } else {
                    let ids = resolved_ids(tbl, args@);
                    let aux = kofn_aux(ids, (n - k) as nat);
                    assert(expanded(after, f1, len0, aux));
                    let b = choose|b: int| #[trigger] expansion_at(after, f1, len0, aux, b);
                    assert forall|t: int|
                        0 <= t < aux.len() implies (#[trigger] f2[b + t]) is Or
                        && node_children(f2[b + t]) == aux[t] by {
                        assert(f2[b + t] == f1[b + t]);
                    }
                    assert(expansion_at(after, f2, len0, aux, b));
                    assert(expanded(after, f2, len0, aux));
                }
            }
        },
        _ => {},
    }
}

/// A resolved placeholder is a gate, and a voting gate only when asked for.
proof fn lemma_ph_resolved_shape(
    tbl: Seq<(String, NodeId)>,
    before: Node,
    after: Node,
    finals: Seq<Node>,
    len0: int,
    keep_vot: bool,
)
    requires
        before is PlaceHolder,
        ph_resolved(tbl, before, after, finals, len0, keep_vot),
    ensures
        !(after is PlaceHolder),
        !keep_vot ==> !(after is Vot),
{
}

/// Whether a token opens a comment.
pub open spec fn comment_tok(t: Seq<char>) -> bool {
    t.len() >= 2 && t[0] == '/' && t[1] == '/'
}

/// Whether the lowercased operator names an unsupported dynamic gate.
pub open spec fn unsupported_op(op: Seq<char>) -> bool {
    op == "csp"@ || op == "wsp"@ || op == "hsp"@ || op == "pand"@ || op == "seq"@ || op
        == "fdep"@
}

/// The cleaned argument names of a gate line: the tokens after the
/// operator, quotes and semicolons removed, empties dropped.
pub open spec fn gate_args_spec(toks: Seq<Seq<char>>) -> Seq<Seq<char>>
    decreases toks.len(),
{
    if toks.len() <= 2 {
        Seq::empty()
    } else {
        gate_args_spec(toks.drop_last()) + (if strip_marks_spec(toks.last()).len() > 0 {
            seq![strip_marks_spec(toks.last())]
        } else {
            Seq::<Seq<char>>::empty()
        })
    }
}

/// How one line moves the root name: a `toplevel` line sets it, and under
/// the simplification a single-child gate line carrying the current root
/// name forwards it to that line's argument.
pub open spec fn line_root_update(cur: Seq<char>, line: Seq<char>, simplify: bool) -> Seq<char> {
    let toks = tokens_spec(line);
    if toks.len() == 0 {
        cur
    } else if comment_tok(toks[0]) {
        cur
    } else if toks.len() >= 2 && lower_spec(toks[0]) == "toplevel"@ {
        strip_marks_spec(toks[1])
    } else if toks.len() >= 2 && ({
        let op = lower_spec(toks[1]);
        op == "or"@ || op == "and"@ || op == "xor"@ || (op != "not"@ && !unsupported_op(op)
            && has_of(op))
    }) && simplify && gate_args_spec(toks).len() == 1 && strip_marks_spec(toks[0]) == cur {
        gate_args_spec(toks)[0]
    } else {
        cur
    }
}

/// The root name after the first `i` declaration lines: `System` until a
/// line changes it.
pub open spec fn root_name_fold(lines: Seq<String>, i: int, simplify: bool) -> Seq<char>
    decreases i,
{
    if i <= 0 {
        "System"@
    } else {
        line_root_update(root_name_fold(lines, i - 1, simplify), lines[i - 1]@, simplify)
    }
}

/// The rewrite pair one line adds: a single-child line under the
/// simplification records its name beside its argument; every other line
/// leaves the map as it stands.
pub open spec fn line_mapper_update(
    m: Seq<(Seq<char>, Seq<char>)>,
    line: Seq<char>,
    simplify: bool,
) -> Seq<(Seq<char>, Seq<char>)> {
    let toks = tokens_spec(line);
    if toks.len() >= 2 && !comment_tok(toks[0]) && lower_spec(toks[0]) != "toplevel"@ && ({
        let op = lower_spec(toks[1]);
        op == "or"@ || op == "and"@ || op == "xor"@ || (op != "not"@ && !unsupported_op(op)
            && has_of(op))
    }) && simplify && gate_args_spec(toks).len() == 1 {
        m.push((strip_marks_spec(toks[0]), gate_args_spec(toks)[0]))
    } else {
        m
    }
}

/// The rewrite map gathered from the first `i` declaration lines.
pub open spec fn mapper_fold(lines: Seq<String>, i: int, simplify: bool) -> Seq<
    (Seq<char>, Seq<char>),
>
    decreases i,
{
    if i <= 0 {
        Seq::empty()
    } else {
        line_mapper_update(mapper_fold(lines, i - 1, simplify), lines[i - 1]@, simplify)
    }
}

/// The node name one line declares: every line but a blank, a comment, a
/// `toplevel` line and a single-child rewrite under the simplification adds
/// the stripped first token to the name table.
pub open spec fn line_names_update(
    ns: Seq<Seq<char>>,
    line: Seq<char>,
    simplify: bool,
) -> Seq<Seq<char>> {
    let toks = tokens_spec(line);
    if toks.len() == 0 || comment_tok(toks[0]) || (toks.len() >= 2 && lower_spec(toks[0])
        == "toplevel"@) {
        ns
    } else if toks.len() >= 2 && ({
        let op = lower_spec(toks[1]);
        op == "or"@ || op == "and"@ || op == "xor"@ || (op != "not"@ && !unsupported_op(op)
            && has_of(op))
    }) && simplify && gate_args_spec(toks).len() == 1 {
        ns
    } else {
        ns.push(strip_marks_spec(toks[0]))
    }
}

/// The names declared by the first `i` lines, in order of declaration.
pub open spec fn names_fold(lines: Seq<String>, i: int, simplify: bool) -> Seq<Seq<char>>
    decreases i,
{
    if i <= 0 {
        Seq::empty()
    } else {
        line_names_update(names_fold(lines, i - 1, simplify), lines[i - 1]@, simplify)
    }
}

/// What one line stores in the node container, seen through views: a leaf
/// with its parsed event, or a connective kept as a placeholder under its
/// lowered operator word and its argument names.
pub ghost enum LineNode {
    Leaf(Seq<char>, BasicEvent),
    Branch(Seq<char>, Seq<char>, Seq<Seq<char>>),
}

/// Whether a stored node is the one its line describes.
pub open spec fn node_matches(n: Node, d: LineNode) -> bool {
    match d {
        LineNode::Leaf(name, be) => {
            &&& n is BasicEvent
            &&& n->BasicEvent_0@ == name
            &&& n->BasicEvent_1 == be
        },
        LineNode::Branch(name, op, args) => {
            &&& n is PlaceHolder
            &&& n->PlaceHolder_0@ == name
            &&& n->PlaceHolder_1@ == op
            &&& n->PlaceHolder_2@.map_values(|t: String| t@) == args
        },
    }
}

/// The node one line adds, if any: blanks, comments, `toplevel` lines and
/// the single-child rewrites add none.
pub open spec fn line_nodes_update(
    ns: Seq<LineNode>,
    line: Seq<char>,
    simplify: bool,
) -> Seq<LineNode> {
    let toks = tokens_spec(line);
    if toks.len() == 0 || comment_tok(toks[0]) || (toks.len() >= 2 && lower_spec(toks[0])
        == "toplevel"@) {
        ns
    } else if toks.len() >= 2 && ({
        let op = lower_spec(toks[1]);
        op == "or"@ || op == "and"@ || op == "xor"@ || op == "not"@ || (!unsupported_op(op)
            && has_of(op))
    }) {
        if lower_spec(toks[1]) != "not"@ && simplify && gate_args_spec(toks).len() == 1 {
            ns
        } else {
            ns.push(
                LineNode::Branch(
                    strip_marks_spec(toks[0]),
                    lower_spec(toks[1]),
                    gate_args_spec(toks),
                ),
            )
        }
    } else {
        ns.push(
            LineNode::Leaf(strip_marks_spec(toks[0]), be_of_kvs(toks.drop_first())->Some_0),
        )
    }
}

/// The nodes the declaration lines add, in order of declaration.
pub open spec fn nodes_fold(lines: Seq<String>, i: int, simplify: bool) -> Seq<LineNode>
    decreases i,
{
    if i <= 0 {
        Seq::empty()
    } else {
        line_nodes_update(nodes_fold(lines, i - 1, simplify), lines[i - 1]@, simplify)
    }
}

/// The two middle states of the reading pipeline, tied to the input
/// lines: `mid1` is the node container the first pass builds over `base`,
/// `m` is the recorded rewrite map, and `mid2` is `mid1` after the
/// single-child rewrite pass (unchanged without the simplification).
pub open spec fn staged_nodes(
    lines: Seq<String>,
    simplify: bool,
    base: Seq<Node>,
    mid1: Seq<Node>,
    m: Seq<(String, String)>,
    mid2: Seq<Node>,
) -> bool {
    &&& mid1.len() == base.len() + nodes_fold(lines, lines.len() as int, simplify).len()
    &&& mid1.subrange(0, base.len() as int) == base
    &&& forall|j: int|
        0 <= j < nodes_fold(lines, lines.len() as int, simplify).len() ==> node_matches(
            mid1[base.len() + j],
            #[trigger] nodes_fold(lines, lines.len() as int, simplify)[j],
        )
    &&& m.map_values(|q: (String, String)| (q.0@, q.1@)) == mapper_fold(
        lines,
        lines.len() as int,
        simplify,
    )
    &&& mid2.len() == mid1.len()
    &&& (simplify ==> (forall|k: int|
        0 <= k < m.len() ==> chain_resolved(m, (#[trigger] m[k]).1@)) && (forall|i: int|
        0 <= i < mid1.len() ==> placeholder_rewritten(mid1[i], #[trigger] mid2[i], m)))
    &&& (!simplify ==> mid2 == mid1)
}

/// The lookup table after the pipeline, tied to the input lines: the old
/// names followed by the declared names, each new entry holding the
/// sequentially issued identifier.
pub open spec fn table_tied(
    before: FaultTreeNormalizer,
    after: FaultTreeNormalizer,
    lines: Seq<String>,
    simplify: bool,
) -> bool {
    &&& after.lookup_table@.map_values(|e: (String, NodeId)| e.0@)
        == before.lookup_table@.map_values(|e: (String, NodeId)| e.0@) + names_fold(
        lines,
        lines.len() as int,
        simplify,
    )
    &&& forall|k: int|
        before.lookup_table@.len() <= k < after.lookup_table@.len() ==> (
        #[trigger] after.lookup_table@[k]).1 == before.nodes@.len() + k
            - before.lookup_table@.len()
}

/// A rewrite map folded from the lines whose chains do not all resolve.
pub open spec fn chains_blocked(lines: Seq<String>, m: Seq<(String, String)>) -> bool {
    &&& m.map_values(|q: (String, String)| (q.0@, q.1@)) == mapper_fold(
        lines,
        lines.len() as int,
        true,
    )
    &&& !(forall|k: int| 0 <= k < m.len() ==> chain_resolved(m, (#[trigger] m[k]).1@))
}

/// Follows the single-child rewrite chain of one name to its terminal.
/// The map's chains must already be known acyclic.
fn resolve_chain(mapper: &Vec<(String, String)>, name: &String) -> (r: String)
    requires
        forall|k: int|
            0 <= k < mapper@.len() ==> chain_resolved(mapper@, (#[trigger] mapper@[k]).1@),
    ensures
        r@ == rewritten(mapper@, name@),
{
    let first = match assoc_get(mapper, name) {
        None => {
            return name.clone();
        },
        Some(v) => v,
    };
    let ghost x0 = first@;
    proof {
        lemma_assoc_value(mapper@, name@);
    }
    let mut mid: String = first;
    let mut steps: usize = 0;
    loop
        invariant
            steps <= mapper@.len(),
            mid@ == chase(mapper@, x0, steps as nat),
            chain_resolved(mapper@, x0),
        ensures
            mid@ == chase(mapper@, x0, mapper@.len() as nat),
        decreases mapper@.len() + 1 - steps,
    {
        match assoc_get(mapper, &mid) {
            Some(nv) => {
                if steps >= mapper.len() {
                    proof {
                        assert(false);
                    }
                    return mid;
                }
                proof {
                    lemma_chase_step(mapper@, x0, steps as nat, nv@);
                }
                mid = nv;
                steps = steps + 1;
            },
            None => {
                proof {
                    lemma_chase_stable(mapper@, x0, steps as nat, mapper@.len() as nat);
                }
                break ;
            },
        }
    }
    mid
}

/// Whether one line makes the first pass fail, given the names already
/// declared and the node counter's value when the line is reached: a
/// dynamic-gate operator, a redeclared connective name, a malformed or
/// unrepresentable basic event, or an exhausted identifier space.
pub open spec fn line_fails(
    ns: Seq<Seq<char>>,
    cnt: int,
    line: Seq<char>,
    simplify: bool,
) -> bool {
    let toks = tokens_spec(line);
    if toks.len() == 0 || comment_tok(toks[0]) || (toks.len() >= 2 && lower_spec(toks[0])
        == "toplevel"@) {
        false
    } else if toks.len() >= 2 && unsupported_op(lower_spec(toks[1])) {
        true
    } else if toks.len() >= 2 && ({
        let op = lower_spec(toks[1]);
        op == "or"@ || op == "and"@ || op == "xor"@ || op == "not"@ || has_of(op)
    }) {
        if ns.contains(strip_marks_spec(toks[0])) {
            true
        } else if lower_spec(toks[1]) != "not"@ && simplify && gate_args_spec(toks).len() == 1 {
            false
        } else {
            cnt == usize::MAX as int
        }
    } else {
        !(kvs_ok(toks.drop_first()) && parsed_be_ok(toks.drop_first())) || cnt == usize::MAX as int
    }
}

/// Whether the first `i` lines all read cleanly, each judged against the
/// names and the counter the lines before it produced.
pub open spec fn lines_ok(
    ns0: Seq<Seq<char>>,
    cnt0: int,
    lines: Seq<String>,
    i: int,
    simplify: bool,
) -> bool
    decreases i,
{
    i <= 0 || (lines_ok(ns0, cnt0, lines, i - 1, simplify) && !line_fails(
        ns0 + names_fold(lines, i - 1, simplify),
        cnt0 + nodes_fold(lines, i - 1, simplify).len(),
        lines[i - 1]@,
        simplify,
    ))
}

proof fn lemma_lines_ok_mono(
    ns0: Seq<Seq<char>>,
    cnt0: int,
    lines: Seq<String>,
    i: int,
    j: int,
    simplify: bool,
)
    requires
        i <= j,
        lines_ok(ns0, cnt0, lines, j, simplify),
    ensures
        lines_ok(ns0, cnt0, lines, i, simplify),
    decreases j - i,
{
    if i < j {
        lemma_lines_ok_mono(ns0, cnt0, lines, i, j - 1, simplify);
    }
}

proof fn lemma_lookup_names(tbl: Seq<(String, NodeId)>, name: Seq<char>)
    ensures
        (lookup_spec(tbl, name) is Some) <==> tbl.map_values(
            |e: (String, NodeId)| e.0@,
        ).contains(name),
    decreases tbl.len(),
{
    let ns = tbl.map_values(|e: (String, NodeId)| e.0@);
    if tbl.len() == 0 {
        assert(!ns.contains(name));
    } else {
        lemma_lookup_names(tbl.drop_last(), name);
        assert(tbl.drop_last().map_values(|e: (String, NodeId)| e.0@) =~= ns.drop_last());
        if tbl.last().0@ == name {
            assert(ns.last() == name);
            assert(ns.contains(name));
        } else {
            if ns.contains(name) {
                let k = choose|k: int| 0 <= k < ns.len() && ns[k] == name;
                if k < ns.len() - 1 {
                    assert(ns.drop_last()[k] == name);
                    assert(ns.drop_last().contains(name));
                }
            }
            if ns.drop_last().contains(name) {
                let k = choose|k: int| 0 <= k < ns.drop_last().len() && ns.drop_last()[k] == name;
                assert(ns[k] == name);
            }
        }
    }
}

impl FaultTreeNormalizer {
    /// First pass: reads each line, creating basic events and placeholders,
    /// and recording the root name and the single-child rewrites.
    pub fn read_file(&mut self, lines: &Vec<String>, simplify: bool) -> (r: Result<
        (String, Vec<(String, String)>),
        FtError,
    >)
        requires
            norm_wf(*old(self)),
            all_be_or_ph(old(self).nodes@),
        ensures
            norm_wf(*final(self)),
            all_be_or_ph(final(self).nodes@),
            final(self).root_id == old(self).root_id,
            r matches Ok(p) ==> p.0@ == root_name_fold(lines@, lines@.len() as int, simplify),
            r matches Ok(p) ==> p.1@.map_values(|q: (String, String)| (q.0@, q.1@)) == mapper_fold(
                lines@,
                lines@.len() as int,
                simplify,
            ),
            r is Ok ==> final(self).lookup_table@.map_values(|e: (String, NodeId)| e.0@) == old(
                self,
            ).lookup_table@.map_values(|e: (String, NodeId)| e.0@) + names_fold(
                lines@,
                lines@.len() as int,
                simplify,
            ),
            r is Ok ==> forall|k: int|
                old(self).lookup_table@.len() <= k < final(self).lookup_table@.len() ==> (
                #[trigger] final(self).lookup_table@[k]).1 == old(self).nodes@.len() + k - old(
                    self,
                ).lookup_table@.len(),
            r is Ok ==> final(self).nodes@.len() == old(self).nodes@.len() + nodes_fold(
                lines@,
                lines@.len() as int,
                simplify,
            ).len(),
            r is Ok ==> forall|j: int|
                0 <= j < nodes_fold(lines@, lines@.len() as int, simplify).len()
                    ==> node_matches(
                    final(self).nodes@[old(self).nodes@.len() + j],
                    #[trigger] nodes_fold(lines@, lines@.len() as int, simplify)[j],
                ),
            final(self).nodes@.subrange(0, old(self).nodes@.len() as int) == old(self).nodes@,
            r is Ok <==> lines_ok(
                old(self).lookup_table@.map_values(|e: (String, NodeId)| e.0@),
                old(self).nodes@.len() as int,
                lines@,
                lines@.len() as int,
                simplify,
            ),
    {
        let mut root_name: String = String::from_str("System");
        let mut replace_mapper: Vec<(String, String)> = Vec::new();
        let mut li: usize = 0;
        let ghost ns0v = old(self).lookup_table@.map_values(|e: (String, NodeId)| e.0@);
        let ghost cnt0v: int = old(self).nodes@.len() as int;
        proof {
            reveal_strlit("System");
            assert(self.nodes@.subrange(0, old(self).nodes@.len() as int) =~= old(self).nodes@);
        }
        while li < lines.len()
            invariant
                norm_wf(*self),
                all_be_or_ph(self.nodes@),
                self.root_id == old(self).root_id,
                li <= lines@.len(),
                root_name@ == root_name_fold(lines@, li as int, simplify),
                replace_mapper@.map_values(|q: (String, String)| (q.0@, q.1@)) == mapper_fold(
                    lines@,
                    li as int,
                    simplify,
                ),
                self.lookup_table@.map_values(|e: (String, NodeId)| e.0@) == old(
                    self,
                ).lookup_table@.map_values(|e: (String, NodeId)| e.0@) + names_fold(
                    lines@,
                    li as int,
                    simplify,
                ),
                self.lookup_table@.len() >= old(self).lookup_table@.len(),
                self.nodes@.len() - old(self).nodes@.len() == self.lookup_table@.len() - old(
                    self,
                ).lookup_table@.len(),
                forall|k: int|
                    old(self).lookup_table@.len() <= k < self.lookup_table@.len() ==> (
                    #[trigger] self.lookup_table@[k]).1 == old(self).nodes@.len() + k - old(
                        self,
                    ).lookup_table@.len(),
                self.nodes@.len() == old(self).nodes@.len() + nodes_fold(
                    lines@,
                    li as int,
                    simplify,
                ).len(),
                forall|j: int|
                    0 <= j < nodes_fold(lines@, li as int, simplify).len() ==> node_matches(
                        self.nodes@[old(self).nodes@.len() + j],
                        #[trigger] nodes_fold(lines@, li as int, simplify)[j],
                    ),
                self.nodes@.subrange(0, old(self).nodes@.len() as int) == old(self).nodes@,
                ns0v == old(self).lookup_table@.map_values(|e: (String, NodeId)| e.0@),
                cnt0v == old(self).nodes@.len() as int,
                lines_ok(ns0v, cnt0v, lines@, li as int, simplify),
            decreases lines@.len() - li,
        {
            let chars = str_to_chars(lines[li].as_str());
            let toks = split_tokens(&chars);
            let ghost tv = tokens_spec(lines@[li as int]@);
            let ghost cur0 = root_name@;
            let ghost m0 = replace_mapper@.map_values(|q: (String, String)| (q.0@, q.1@));
            let ghost tn0 = self.lookup_table@.map_values(|e: (String, NodeId)| e.0@);
            let ghost nf0 = names_fold(lines@, li as int, simplify);
            let ghost nd0 = nodes_fold(lines@, li as int, simplify);
            let ghost cnt_at: int = cnt0v + nd0.len();
            proof {
                assert(self.node_counter == cnt_at);
                assert(tn0 =~= ns0v + nf0);
            }
            li = li + 1;
            proof {
                assert(root_name_fold(lines@, li as int, simplify) == line_root_update(
                    cur0,
                    lines@[li - 1]@,
                    simplify,
                ));
                assert(mapper_fold(lines@, li as int, simplify) == line_mapper_update(
                    m0,
                    lines@[li - 1]@,
                    simplify,
                ));
                assert(names_fold(lines@, li as int, simplify) == line_names_update(
                    nf0,
                    lines@[li - 1]@,
                    simplify,
                ));
                assert(nodes_fold(lines@, li as int, simplify) == line_nodes_update(
                    nd0,
                    lines@[li - 1]@,
                    simplify,
                ));
            }
            if toks.len() == 0 {
                proof {
                    assert(line_root_update(cur0, lines@[li - 1]@, simplify) == cur0);
                    assert(line_mapper_update(m0, lines@[li - 1]@, simplify) == m0);
                    assert(line_names_update(nf0, lines@[li - 1]@, simplify) == nf0);
                    assert(line_nodes_update(nd0, lines@[li - 1]@, simplify) == nd0);
                    assert(!line_fails(ns0v + nf0, cnt_at, lines@[li - 1]@, simplify));
                }
                continue ;
            }
            if is_comment_token(&toks[0]) {
                proof {
                    assert(toks@[0]@ == tv[0]);
                    assert(comment_tok(tv[0]));
                    assert(line_root_update(cur0, lines@[li - 1]@, simplify) == cur0);
                    assert(line_mapper_update(m0, lines@[li - 1]@, simplify) == m0);
                    assert(line_names_update(nf0, lines@[li - 1]@, simplify) == nf0);
                    assert(line_nodes_update(nd0, lines@[li - 1]@, simplify) == nd0);
                    assert(!line_fails(ns0v + nf0, cnt_at, lines@[li - 1]@, simplify));
                }
                continue ;
            }
            let low0 = ascii_lower(&toks[0]);
            if toks.len() >= 2 && token_is(&low0, "toplevel") {
                root_name = chars_to_string(&strip_marks(&toks[1]));
                proof {
                    assert(toks@[0]@ == tv[0]);
                    assert(toks@[1]@ == tv[1]);
                    assert(!comment_tok(tv[0]));
                    assert(lower_spec(tv[0]) == "toplevel"@);
                    assert(line_root_update(cur0, lines@[li - 1]@, simplify) == strip_marks_spec(
                        tv[1],
                    ));
                    assert(line_mapper_update(m0, lines@[li - 1]@, simplify) == m0);
                    assert(line_names_update(nf0, lines@[li - 1]@, simplify) == nf0);
                    assert(line_nodes_update(nd0, lines@[li - 1]@, simplify) == nd0);
                    assert(!line_fails(ns0v + nf0, cnt_at, lines@[li - 1]@, simplify));
                }
                continue ;
            }
            if toks.len() >= 2 {
                let op_low = ascii_lower(&toks[1]);
                let ghost opv = lower_spec(tv[1]);
                proof {
                    assert(toks@[1]@ == tv[1]);
                    assert(op_low@ == opv);
                    assert(toks@[0]@ == tv[0]);
                    lemma_gate_words_distinct();
                }
                let is_not = token_is(&op_low, "not");
                let is_aox = token_is(&op_low, "or") || token_is(&op_low, "and") || token_is(
                    &op_low,
                    "xor",
                );
                let has_of = match find_of(&op_low) {
                    Some(i) => {
                        proof {
                            lemma_of_idx(opv);
                            if of_idx(opv) > i {
                                assert(!(opv[i as int] == 'o' && opv[i + 1] == 'f'));
                            }
                            assert(crate::fault_tree_normalizer::has_of(opv));
                        }
                        true
                    },
                    None => {
                        proof {
                            lemma_of_idx(opv);
                            if crate::fault_tree_normalizer::has_of(opv) {
                                assert(opv[of_idx(opv)] == 'o' && opv[of_idx(opv) + 1] == 'f');
                            }
                        }
                        false
                    },
                };
                let unsupported = token_is(&op_low, "csp") || token_is(&op_low, "wsp") || token_is(
                    &op_low,
                    "hsp",
                ) || token_is(&op_low, "pand") || token_is(&op_low, "seq") || token_is(
                    &op_low,
                    "fdep",
                );
                if unsupported {
                    proof {
                        assert(low0@ == lower_spec(tv[0]));
                        assert(unsupported_op(opv));
                        assert(line_fails(ns0v + nf0, cnt_at, lines@[li - 1]@, simplify));
                        if lines_ok(ns0v, cnt0v, lines@, lines@.len() as int, simplify) {
                            lemma_lines_ok_mono(
                                ns0v,
                                cnt0v,
                                lines@,
                                li as int,
                                lines@.len() as int,
                                simplify,
                            );
                            assert(false);
                        }
                    }
                    return Err(
                        FtError::Parse(
                            String::from_str("unsupported gate: only static fault trees"),
                        ),
                    );
                }
                if is_not || is_aox || has_of {
                    let name = chars_to_string(&strip_marks(&toks[0]));
                    match self.lookup(&name) {
                        Some(_) => {
                            proof {
                                assert(low0@ == lower_spec(tv[0]));
                                lemma_lookup_names(self.lookup_table@, name@);
                                assert((ns0v + nf0).contains(strip_marks_spec(tv[0])));
                                assert(line_fails(ns0v + nf0, cnt_at, lines@[li - 1]@, simplify));
                            if lines_ok(ns0v, cnt0v, lines@, lines@.len() as int, simplify) {
                                lemma_lines_ok_mono(
                                    ns0v,
                                    cnt0v,
                                    lines@,
                                    li as int,
                                    lines@.len() as int,
                                    simplify,
                                );
                                assert(false);
                            }
                            }
                            return Err(
                                FtError::Parse(String::from_str("gate name already in use")),
                            );
                        },
                        None => {
                            proof {
                                lemma_lookup_names(self.lookup_table@, name@);
                                assert(!(ns0v + nf0).contains(strip_marks_spec(tv[0])));
                            }
                        },
                    }
                    // collect the argument names
                    let mut args: Vec<String> = Vec::new();
                    let mut ai: usize = 2;
                    proof {
                        assert(gate_args_spec(tv.subrange(0, 2)) =~= Seq::<Seq<char>>::empty());
                        assert(args@.map_values(|t: String| t@) =~= gate_args_spec(
                            tv.subrange(0, 2),
                        ));
                    }
                    while ai < toks.len()
                        invariant
                            2 <= ai <= toks@.len(),
                            toks@.len() == tv.len(),
                            forall|t: int| 0 <= t < toks@.len() ==> #[trigger] toks@[t]@ == tv[t],
                            args@.map_values(|t: String| t@) == gate_args_spec(
                                tv.subrange(0, ai as int),
                            ),
                        decreases toks@.len() - ai,
                    {
                        let st = strip_marks(&toks[ai]);
                        let ghost pre_args = args@;
                        if st.len() > 0 {
                            args.push(chars_to_string(&st));
                            proof {
                                assert(args@.map_values(|t: String| t@) =~= pre_args.map_values(
                                    |t: String| t@,
                                ).push(strip_marks_spec(tv[ai as int])));
                            }
                        }
                        proof {
                            assert(tv.subrange(0, ai + 1).drop_last() =~= tv.subrange(
                                0,
                                ai as int,
                            ));
                            assert(tv.subrange(0, ai + 1).last() == tv[ai as int]);
                            assert(args@.map_values(|t: String| t@) =~= gate_args_spec(
                                tv.subrange(0, ai + 1),
                            ));
                        }
                        ai = ai + 1;
                    }
                    proof {
                        assert(tv.subrange(0, tv.len() as int) =~= tv);
                        assert(args@.map_values(|t: String| t@) == gate_args_spec(tv));
                    }
                    if !is_not && simplify && args.len() == 1 {
                        // a single-child gate is recorded as a rewrite
                        let target = args[0].clone();
                        proof {
                            assert(target@ == args@.map_values(|t: String| t@)[0]);
                            assert(gate_args_spec(tv).len() == 1);
                            assert(low0@ == lower_spec(tv[0]));
                            assert(lower_spec(tv[0]) != "toplevel"@);
                            assert(!comment_tok(tv[0]));
                            assert(line_mapper_update(m0, lines@[li - 1]@, simplify) == m0.push(
                                (strip_marks_spec(tv[0]), gate_args_spec(tv)[0]),
                            ));
                            assert(line_names_update(nf0, lines@[li - 1]@, simplify) == nf0);
                            assert(line_nodes_update(nd0, lines@[li - 1]@, simplify) == nd0);
                            assert(!line_fails(ns0v + nf0, cnt_at, lines@[li - 1]@, simplify));
                        }
                        if root_name.eq(&name) {
                            root_name = target.clone();
                            proof {
                                assert(name@ == strip_marks_spec(tv[0]));
                                assert(line_root_update(cur0, lines@[li - 1]@, simplify)
                                    == gate_args_spec(tv)[0]);
                            }
                        } else {
                            proof {
                                assert(strip_marks_spec(tv[0]) != cur0);
                                assert(line_root_update(cur0, lines@[li - 1]@, simplify) == cur0);
                            }
                        }
                        replace_mapper.push((name, target));
                        proof {
                            assert(replace_mapper@.map_values(|q: (String, String)| (q.0@, q.1@))
                                =~= m0.push((strip_marks_spec(tv[0]), gate_args_spec(tv)[0])));
                        }
                    } else {
                        proof {
                            assert(line_root_update(cur0, lines@[li - 1]@, simplify) == cur0);
                            assert(line_mapper_update(m0, lines@[li - 1]@, simplify) == m0);
                            assert(low0@ == lower_spec(tv[0]));
                            assert(line_names_update(nf0, lines@[li - 1]@, simplify) == nf0.push(
                                strip_marks_spec(tv[0]),
                            ));
                            assert(line_nodes_update(nd0, lines@[li - 1]@, simplify) == nd0.push(
                                LineNode::Branch(
                                    strip_marks_spec(tv[0]),
                                    lower_spec(tv[1]),
                                    gate_args_spec(tv),
                                ),
                            ));
                        }
                        if self.node_counter == usize::MAX {
                            proof {
                                assert(low0@ == lower_spec(tv[0]));
                                assert(line_fails(ns0v + nf0, cnt_at, lines@[li - 1]@, simplify));
                            if lines_ok(ns0v, cnt0v, lines@, lines@.len() as int, simplify) {
                                lemma_lines_ok_mono(
                                    ns0v,
                                    cnt0v,
                                    lines@,
                                    li as int,
                                    lines@.len() as int,
                                    simplify,
                                );
                                assert(false);
                            }
                            }
                            return Err(FtError::Structure(String::from_str("tree too large")));
                        }
                        proof {
                            assert(low0@ == lower_spec(tv[0]));
                            assert(!line_fails(ns0v + nf0, cnt_at, lines@[li - 1]@, simplify));
                        }
                        let nid = self.new_id();
                        let op_str = chars_to_string(&op_low);
                        let node = Node::PlaceHolder(name.clone(), op_str, args);
                        proof {
                            assert(node_matches(
                                node,
                                LineNode::Branch(
                                    strip_marks_spec(tv[0]),
                                    lower_spec(tv[1]),
                                    gate_args_spec(tv),
                                ),
                            ));
                        }
                        self.add_node(name, node, nid);
                        proof {
                            assert(self.nodes@.subrange(0, old(self).nodes@.len() as int)
                                =~= old(self).nodes@);
                            assert(self.lookup_table@.map_values(|e: (String, NodeId)| e.0@)
                                =~= tn0.push(strip_marks_spec(tv[0])));
                            assert(tn0.push(strip_marks_spec(tv[0])) =~= old(
                                self,
                            ).lookup_table@.map_values(|e: (String, NodeId)| e.0@) + nf0.push(
                                strip_marks_spec(tv[0]),
                            ));
                        }
                    }
                    continue ;
                }
            }
            proof {
                assert(line_root_update(cur0, lines@[li - 1]@, simplify) == cur0);
                assert(line_mapper_update(m0, lines@[li - 1]@, simplify) == m0);
                assert(toks@[0]@ == tv[0]);
                assert(low0@ == lower_spec(tv[0]));
                assert(line_names_update(nf0, lines@[li - 1]@, simplify) == nf0.push(
                    strip_marks_spec(tv[0]),
                ));
                assert(line_nodes_update(nd0, lines@[li - 1]@, simplify) == nd0.push(
                    LineNode::Leaf(strip_marks_spec(tv[0]), be_of_kvs(tv.drop_first())->Some_0),
                ));
            }
            // a basic-event declaration
            let parsed = match parse_basic_event(&toks) {
                Ok(p) => p,
                Err(e) => {
                    proof {
                        assert(arg_views(toks@) =~= tv.drop_first());
                        assert(line_fails(ns0v + nf0, cnt_at, lines@[li - 1]@, simplify));
                        if lines_ok(ns0v, cnt0v, lines@, lines@.len() as int, simplify) {
                            lemma_lines_ok_mono(
                                ns0v,
                                cnt0v,
                                lines@,
                                li as int,
                                lines@.len() as int,
                                simplify,
                            );
                            assert(false);
                        }
                    }
                    return Err(e);
                },
            };
            if self.node_counter == usize::MAX {
                proof {
                    assert(line_fails(ns0v + nf0, cnt_at, lines@[li - 1]@, simplify));
                        if lines_ok(ns0v, cnt0v, lines@, lines@.len() as int, simplify) {
                            lemma_lines_ok_mono(
                                ns0v,
                                cnt0v,
                                lines@,
                                li as int,
                                lines@.len() as int,
                                simplify,
                            );
                            assert(false);
                        }
                }
                return Err(FtError::Structure(String::from_str("tree too large")));
            }
            proof {
                assert(arg_views(toks@) =~= tv.drop_first());
                assert(!line_fails(ns0v + nf0, cnt_at, lines@[li - 1]@, simplify));
            }
            let nid = self.new_id();
            let node = Node::BasicEvent(parsed.0.clone(), parsed.1);
            proof {
                assert(arg_views(toks@) =~= tv.drop_first());
                assert(node_matches(
                    node,
                    LineNode::Leaf(strip_marks_spec(tv[0]), be_of_kvs(tv.drop_first())->Some_0),
                ));
            }
            self.add_node(parsed.0, node, nid);
            proof {
                assert(self.nodes@.subrange(0, old(self).nodes@.len() as int) =~= old(
                    self,
                ).nodes@);
                assert(self.lookup_table@.map_values(|e: (String, NodeId)| e.0@) =~= tn0.push(
                    strip_marks_spec(tv[0]),
                ));
                assert(tn0.push(strip_marks_spec(tv[0])) =~= old(
                    self,
                ).lookup_table@.map_values(|e: (String, NodeId)| e.0@) + nf0.push(
                    strip_marks_spec(tv[0]),
                ));
            }
        }
        Ok((root_name, replace_mapper))
    }

    /// Second pass: replaces each argument of a placeholder through the
    /// transitively closed single-child rewrites.
    #[verifier::rlimit(100)]
    #[verifier::spinoff_prover]
    pub fn preprocess_placeholders(&mut self, mapper: &Vec<(String, String)>) -> (r: Result<
        (),
        FtError,
    >)
        requires
            norm_wf(*old(self)),
            all_be_or_ph(old(self).nodes@),
        ensures
            norm_wf(*final(self)),
            all_be_or_ph(final(self).nodes@),
            final(self).root_id == old(self).root_id,
            final(self).node_counter == old(self).node_counter,
            final(self).lookup_table == old(self).lookup_table,
            final(self).nodes@.len() == old(self).nodes@.len(),
            r is Ok <==> (forall|k: int|
                0 <= k < mapper@.len() ==> chain_resolved(mapper@, (#[trigger] mapper@[k]).1@)),
            r is Ok ==> forall|i: int|
                0 <= i < old(self).nodes@.len() ==> placeholder_rewritten(
                    old(self).nodes@[i],
                    #[trigger] final(self).nodes@[i],
                    mapper@,
                ),
    {
        let n0 = self.nodes.len();
        // close the rewrite map transitively
        let mut corrected: Vec<(String, String)> = Vec::new();
        let mut mi: usize = 0;
        while mi < mapper.len()
            invariant
                mi <= mapper@.len(),
                corrected@.len() == mi,
                norm_wf(*self),
                all_be_or_ph(self.nodes@),
                *self == *old(self),
                self.root_id == old(self).root_id,
                self.nodes@.len() == old(self).nodes@.len(),
                forall|k: int|
                    0 <= k < mi ==> (#[trigger] corrected@[k]).0@ == mapper@[k].0@
                        && corrected@[k].1@ == chase(mapper@, mapper@[k].1@, mapper@.len() as nat)
                        && chain_resolved(mapper@, mapper@[k].1@),
            decreases mapper@.len() - mi,
        {
            let mut mid: String = mapper[mi].1.clone();
            let mut steps: usize = 0;
            loop
                invariant
                    steps <= mapper@.len(),
                    mi < mapper@.len(),
                    mid@ == chase(mapper@, mapper@[mi as int].1@, steps as nat),
                    norm_wf(*self),
                    all_be_or_ph(self.nodes@),
                    *self == *old(self),
                    self.root_id == old(self).root_id,
                    self.nodes@.len() == old(self).nodes@.len(),
                ensures
                    mid@ == chase(mapper@, mapper@[mi as int].1@, mapper@.len() as nat),
                    chain_resolved(mapper@, mapper@[mi as int].1@),
                decreases mapper@.len() + 1 - steps,
            {
                match assoc_get(mapper, &mid) {
                    Some(nv) => {
                        if steps >= mapper.len() {
                            // the chain comes back on itself
                            proof {
                                assert(!chain_resolved(mapper@, mapper@[mi as int].1@));
                            }
                            return Err(
                                FtError::Structure(
                                    String::from_str("cyclic single-child rewrite"),
                                ),
                            );
                        }
                        proof {
                            assert(chase(mapper@, mapper@[mi as int].1@, (steps + 1) as nat)
                                == nv@) by {
                                lemma_chase_step(
                                    mapper@,
                                    mapper@[mi as int].1@,
                                    steps as nat,
                                    nv@,
                                );
                            }
                        }
                        mid = nv;
                        steps = steps + 1;
                    },
                    None => {
                        proof {
                            lemma_chase_stable(
                                mapper@,
                                mapper@[mi as int].1@,
                                steps as nat,
                                mapper@.len() as nat,
                            );
                        }
                        break ;
                    },
                }
            }
            corrected.push((mapper[mi].0.clone(), mid));
            mi = mi + 1;
        }
        proof {
            assert forall|k: int|
                0 <= k < mapper@.len() implies chain_resolved(
                mapper@,
                (#[trigger] mapper@[k]).1@,
            ) by {
                assert((corrected@[k]).0@ == mapper@[k].0@);
            }
        }
        // rewrite the arguments of every placeholder
        let ghost orig_nodes = self.nodes@;
        let mut i: usize = 0;
        while i < self.nodes.len()
            invariant
                norm_wf(*self),
                all_be_or_ph(self.nodes@),
                self.root_id == old(self).root_id,
                self.node_counter == old(self).node_counter,
                self.lookup_table == old(self).lookup_table,
                self.nodes@.len() == orig_nodes.len(),
                orig_nodes == old(self).nodes@,
                i <= self.nodes@.len(),
                forall|k: int|
                    0 <= k < mapper@.len() ==> chain_resolved(
                        mapper@,
                        (#[trigger] mapper@[k]).1@,
                    ),
                corrected@.len() == mapper@.len(),
                forall|k: int|
                    0 <= k < mapper@.len() ==> (#[trigger] corrected@[k]).0@ == mapper@[k].0@
                        && corrected@[k].1@ == chase(mapper@, mapper@[k].1@, mapper@.len() as nat),
                forall|j: int| i <= j < orig_nodes.len() ==> #[trigger] self.nodes@[j]
                    == orig_nodes[j],
                forall|j: int|
                    0 <= j < i ==> placeholder_rewritten(
                        orig_nodes[j],
                        #[trigger] self.nodes@[j],
                        mapper@,
                    ),
            decreases self.nodes@.len() - i,
        {
            let replacement: Option<Node> = match &self.nodes[i] {
                Node::PlaceHolder(name, op, args) => {
                    let mut new_args: Vec<String> = Vec::new();
                    let mut ai: usize = 0;
                    while ai < args.len()
                        invariant
                            ai <= args@.len(),
                            new_args@.len() == ai,
                            corrected@.len() == mapper@.len(),
                            forall|k: int|
                                0 <= k < mapper@.len() ==> (#[trigger] corrected@[k]).0@
                                    == mapper@[k].0@ && corrected@[k].1@ == chase(
                                    mapper@,
                                    mapper@[k].1@,
                                    mapper@.len() as nat,
                                ),
                            forall|j: int|
                                0 <= j < ai ==> (#[trigger] new_args@[j])@ == rewritten(
                                    mapper@,
                                    args@[j]@,
                                ),
                        decreases args@.len() - ai,
                    {
                        proof {
                            lemma_assoc_same_keys(mapper@, corrected@, args@[ai as int]@);
                            lemma_assoc_idx(mapper@, args@[ai as int]@);
                        }
                        match assoc_get(&corrected, &args[ai]) {
                            Some(v) => {
                                new_args.push(v);
                            },
                            None => {
                                new_args.push(args[ai].clone());
                            },
                        }
                        ai = ai + 1;
                    }
                    Some(Node::PlaceHolder(name.clone(), op.clone(), new_args))
                },
                _ => None,
            };
            match replacement {
                Some(node) => {
                    self.update_roots(node, i);
                },
                None => {},
            }
            i = i + 1;
        }
        Ok(())
    }

    /// Third pass: resolves every placeholder into a concrete gate,
    /// expanding `k`-of-`n` gates unless asked to keep them.  On success,
    /// each placeholder becomes exactly the node its operator and resolved
    /// argument names describe; a failure names an unresolved placeholder
    /// or an exhausted identifier space.
    pub fn fill_placeholders(&mut self, keep_vot: bool) -> (r: Result<(), FtError>)
        requires
            norm_wf(*old(self)),
            all_be_or_ph(old(self).nodes@),
        ensures
            norm_wf(*final(self)),
            final(self).root_id == old(self).root_id,
            final(self).lookup_table == old(self).lookup_table,
            final(self).nodes@.len() >= old(self).nodes@.len(),
            r is Ok ==> forall|i: int|
                0 <= i < final(self).nodes@.len() ==> !((#[trigger] final(self).nodes@[i])
                    is PlaceHolder) && (!keep_vot ==> !(final(self).nodes@[i] is Vot)),
            r is Ok ==> forall|i: int|
                0 <= i < old(self).nodes@.len() ==> ph_plan_ok(
                    old(self).lookup_table@,
                    #[trigger] old(self).nodes@[i],
                    keep_vot,
                ),
            r is Ok ==> forall|i: int|
                0 <= i < old(self).nodes@.len() ==> ph_resolved(
                    old(self).lookup_table@,
                    old(self).nodes@[i],
                    #[trigger] final(self).nodes@[i],
                    final(self).nodes@,
                    old(self).nodes@.len() as int,
                    keep_vot,
                ),
            r is Err ==> (exists|i: int|
                0 <= i < old(self).nodes@.len() && !ph_plan_ok(
                    old(self).lookup_table@,
                    #[trigger] old(self).nodes@[i],
                    keep_vot,
                )) || (final(self).node_counter == usize::MAX && exists|i: int|
                0 <= i < old(self).nodes@.len() && expanding_ph(#[trigger] old(self).nodes@[i])),
    {
        let ghost tbl = self.lookup_table@;
        let ghost nodes0 = self.nodes@;
        let ghost len0 = self.nodes@.len() as int;
        // collect the placeholders
        let mut plist: Vec<usize> = Vec::new();
        let mut ci: usize = 0;
        while ci < self.nodes.len()
            invariant
                ci <= self.nodes@.len(),
                *self == *old(self),
                forall|x: int, y: int| 0 <= x < y < plist@.len() ==> plist@[x] < plist@[y],
                forall|x: int| 0 <= x < plist@.len() ==> #[trigger] plist@[x] < ci,
                forall|x: int|
                    0 <= x < plist@.len() ==> self.nodes@[#[trigger] plist@[x] as int]
                        is PlaceHolder,
                forall|i: int|
                    0 <= i < ci && self.nodes@[i] is PlaceHolder ==> exists|x: int|
                        0 <= x < plist@.len() && #[trigger] plist@[x] == i,
            decreases self.nodes@.len() - ci,
        {
            match &self.nodes[ci] {
                Node::PlaceHolder(_, _, _) => {
                    let ghost pre = plist@;
                    plist.push(ci);
                    proof {
                        assert(plist@[plist@.len() - 1] == ci);
                        assert forall|i: int|
                            0 <= i < ci + 1 && self.nodes@[i] is PlaceHolder implies exists|x: int|
                            0 <= x < plist@.len() && #[trigger] plist@[x] == i by {
                            if i < ci {
                                let x0 = choose|x0: int|
                                    0 <= x0 < pre.len() && #[trigger] pre[x0] == i;
                                assert(plist@[x0] == i);
                            } else {
                                assert(plist@[plist@.len() - 1] == i);
                            }
                        }
                    }
                },
                _ => {},
            }
            ci = ci + 1;
        }
        // resolve each one against the unchanging name table
        proof {
            assert forall|kk: int| 0 <= kk < tbl.len() implies (#[trigger] tbl[kk]).1 < len0 by {
                assert(old(self).lookup_table@[kk].1 < old(self).nodes@.len());
            }
        }
        let mut pi: usize = 0;
        while pi < plist.len()
            invariant
                norm_wf(*self),
                self.root_id == old(self).root_id,
                self.lookup_table == old(self).lookup_table,
                tbl == old(self).lookup_table@,
                forall|kk: int| 0 <= kk < tbl.len() ==> (#[trigger] tbl[kk]).1 < len0,
                nodes0 == old(self).nodes@,
                len0 == nodes0.len(),
                self.nodes@.len() >= len0,
                pi <= plist@.len(),
                forall|x: int, y: int| 0 <= x < y < plist@.len() ==> plist@[x] < plist@[y],
                forall|x: int| 0 <= x < plist@.len() ==> #[trigger] plist@[x] < len0,
                forall|x: int|
                    0 <= x < plist@.len() ==> nodes0[#[trigger] plist@[x] as int] is PlaceHolder,
                forall|i: int|
                    0 <= i < len0 && nodes0[i] is PlaceHolder ==> exists|x: int|
                        0 <= x < plist@.len() && #[trigger] plist@[x] == i,
                forall|i: int|
                    0 <= i < len0 && !(nodes0[i] is PlaceHolder) ==> #[trigger] self.nodes@[i]
                        == nodes0[i],
                forall|x: int|
                    pi <= x < plist@.len() ==> #[trigger] self.nodes@[plist@[x] as int]
                        == nodes0[plist@[x] as int],
                forall|x: int|
                    0 <= x < pi ==> ph_plan_ok(
                        tbl,
                        nodes0[#[trigger] plist@[x] as int],
                        keep_vot,
                    ) && ph_resolved(
                        tbl,
                        nodes0[plist@[x] as int],
                        self.nodes@[plist@[x] as int],
                        self.nodes@,
                        len0,
                        keep_vot,
                    ),
                forall|i: int|
                    len0 <= i < self.nodes@.len() ==> !((#[trigger] self.nodes@[i])
                        is PlaceHolder) && !(self.nodes@[i] is Vot),
            decreases plist@.len() - pi,
        {
            let nid = plist[pi];
            let cloned: (String, Vec<String>) = match &self.nodes[nid] {
                Node::PlaceHolder(_, op, args) => (op.clone(), clone_strings(args)),
                _ => {
                    proof {
                        assert(false);
                    }
                    (String::new(), Vec::new())
                },
            };
            let op = cloned.0;
            let args = cloned.1;
            let ghost before = nodes0[nid as int];
            proof {
                assert(self.nodes@[nid as int] == before);
                assert(before is PlaceHolder);
                assert(op@ == before->PlaceHolder_1@);
                assert(args@.len() == before->PlaceHolder_2@.len());
                assert(forall|j: int|
                    0 <= j < args@.len() ==> (#[trigger] args@[j])@ == before->PlaceHolder_2@[
                    j]@);
            }
            let ghost iter_base = self.nodes@;
            // resolve every argument name
            let mut args_ids: Vec<NodeId> = Vec::new();
            let mut ai: usize = 0;
            while ai < args.len()
                invariant
                    ai <= args@.len(),
                    args_ids@.len() == ai,
                    norm_wf(*self),
                    self.lookup_table == old(self).lookup_table,
                    tbl == old(self).lookup_table@,
                    forall|kk: int| 0 <= kk < tbl.len() ==> (#[trigger] tbl[kk]).1 < len0,
                    nodes0 == old(self).nodes@,
                    len0 == nodes0.len(),
                    self.nodes@.len() >= len0,
                    self.root_id == old(self).root_id,
                    nid < len0,
                    before == nodes0[nid as int],
                    before is PlaceHolder,
                    args@.len() == before->PlaceHolder_2@.len(),
                    forall|j: int|
                        0 <= j < args@.len() ==> (#[trigger] args@[j])@ == before->PlaceHolder_2@[
                        j]@,
                    forall|j: int|
                        0 <= j < ai ==> lookup_spec(tbl, (#[trigger] args@[j])@) is Some
                            && args_ids@[j] == lookup_spec(tbl, args@[j]@)->Some_0
                            && args_ids@[j] < len0,
                decreases args@.len() - ai,
            {
                match self.lookup(&args[ai]) {
                    Some(aid) => {
                        proof {
                            lemma_lookup_entry(tbl, args@[ai as int]@);
                            let kk = choose|kk: int|
                                0 <= kk < tbl.len() && (#[trigger] tbl[kk]).1 == lookup_spec(
                                    tbl,
                                    args@[ai as int]@,
                                )->Some_0;
                            assert(tbl[kk].1 < len0);
                        }
                        args_ids.push(aid);
                    },
                    None => {
                        proof {
                            assert(!args_resolve(tbl, before->PlaceHolder_2@));
                            assert(!ph_plan_ok(tbl, nodes0[nid as int], keep_vot));
                        }
                        return Err(FtError::Structure(String::from_str("unresolved argument")));
                    },
                }
                ai = ai + 1;
            }
            proof {
                assert forall|j: int|
                    0 <= j < args@.len() implies #[trigger] args_ids@[j] == resolved_ids(
                    tbl,
                    before->PlaceHolder_2@,
                )[j] by {
                    assert(args@[j]@ == before->PlaceHolder_2@[j]@);
                    assert(args_ids@[j] == lookup_spec(tbl, args@[j]@)->Some_0);
                }
                assert(args_ids@ =~= resolved_ids(tbl, before->PlaceHolder_2@));
                assert(args_resolve(tbl, before->PlaceHolder_2@)) by {
                    assert forall|j: int|
                        0 <= j < before->PlaceHolder_2@.len() implies lookup_spec(
                        tbl,
                        (#[trigger] before->PlaceHolder_2@[j])@,
                    ) is Some by {
                        assert(args@[j]@ == before->PlaceHolder_2@[j]@);
                        assert(lookup_spec(tbl, args@[j]@) is Some);
                    }
                }
            }
            let ghost ids = resolved_ids(tbl, before->PlaceHolder_2@);
            proof {
                assert forall|j: int| 0 <= j < ids.len() implies #[trigger] ids[j] < len0 by {
                    assert(lookup_spec(tbl, (before->PlaceHolder_2@[j])@) is Some);
                    lemma_lookup_entry(tbl, (before->PlaceHolder_2@[j])@);
                    let kk2 = choose|kk2: int|
                        0 <= kk2 < tbl.len() && (#[trigger] tbl[kk2]).1 == lookup_spec(
                            tbl,
                            (before->PlaceHolder_2@[j])@,
                        )->Some_0;
                    assert(tbl[kk2].1 < len0);
                }
            }
            let ghost mut exp_b: int = 0;
            let ghost mut exp_aux: Seq<Seq<NodeId>> = Seq::empty();
            let opch = str_to_chars(op.as_str());
            let opn = opch.len();
            let node: Node = if token_is(&opch, "or") {
                Node::Or(args_ids)
            } else if token_is(&opch, "xor") {
                Node::Xor(args_ids)
            } else if token_is(&opch, "and") {
                Node::And(args_ids)
            } else if token_is(&opch, "not") {
                if args_ids.len() != 1 {
                    proof {
                        assert(!ph_plan_ok(tbl, nodes0[nid as int], keep_vot));
                    }
                    return Err(
                        FtError::Structure(String::from_str("a negation takes one argument")),
                    );
                }
                proof {
                    assert(seq![ids[0]] =~= ids);
                }
                Node::Not(args_ids[0])
            } else {
                let ofi = match find_of(&opch) {
                    Some(v) => v,
                    None => {
                        proof {
                            lemma_of_idx(opch@);
                            assert(!has_of(opch@)) by {
                                if of_idx(opch@) + 1 < opch@.len() {
                                    assert(opch@[of_idx(opch@)] == 'o' && opch@[of_idx(opch@)
                                        + 1] == 'f');
                                }
                            }
                            assert(!ph_plan_ok(tbl, nodes0[nid as int], keep_vot));
                        }
                        return Err(FtError::Parse(String::from_str("unknown gate operator")));
                    },
                };
                proof {
                    lemma_of_idx(opch@);
                    assert(ofi == of_idx(opch@)) by {
                        if ofi < of_idx(opch@) {
                            assert(opch@[ofi as int] == 'o' && opch@[ofi + 1] == 'f');
                        }
                        if of_idx(opch@) < ofi {
                            assert(!(opch@[of_idx(opch@)] == 'o' && opch@[of_idx(opch@) + 1]
                                == 'f'));
                        }
                    }
                    assert(has_of(opch@));
                }
                let mut kch: Vec<char> = Vec::new();
                let mut x: usize = 0;
                while x < ofi
                    invariant
                        x <= ofi,
                        ofi + 2 <= opch@.len(),
                        kch@ == opch@.subrange(0, x as int),
                    decreases ofi - x,
                {
                    kch.push(opch[x]);
                    proof {
                        assert(opch@.subrange(0, x as int).push(opch@[x as int]) =~= opch@
                            .subrange(0, x + 1));
                    }
                    x = x + 1;
                }
                let mut nch: Vec<char> = Vec::new();
                proof {
                    assert(ofi + 2 <= opn);
                }
                let mut y: usize = ofi + 2;
                while y < opch.len()
                    invariant
                        ofi + 2 <= y <= opch@.len(),
                        nch@ == opch@.subrange(ofi + 2, y as int),
                    decreases opch@.len() - y,
                {
                    nch.push(opch[y]);
                    proof {
                        assert(opch@.subrange(ofi + 2, y as int).push(opch@[y as int]) =~= opch@
                            .subrange(ofi + 2, y + 1));
                    }
                    y = y + 1;
                }
                proof {
                    assert(kch@ =~= kofn_k_txt(opch@));
                    assert(nch@ =~= kofn_n_txt(opch@));
                }
                let k = match parse_usize(&kch) {
                    Some(v) => v,
                    None => {
                        proof {
                            assert(!ph_plan_ok(tbl, nodes0[nid as int], keep_vot));
                        }
                        return Err(FtError::Structure(String::from_str("bad voting threshold")));
                    },
                };
                let n = match parse_usize(&nch) {
                    Some(v) => v,
                    None => {
                        proof {
                            assert(!ph_plan_ok(tbl, nodes0[nid as int], keep_vot));
                        }
                        return Err(FtError::Structure(String::from_str("bad voting width")));
                    },
                };
                if args_ids.len() != n || k < 1 || k > n {
                    proof {
                        assert(!ph_plan_ok(tbl, nodes0[nid as int], keep_vot));
                    }
                    return Err(
                        FtError::Structure(
                            String::from_str("voting gate bounds do not match its arguments"),
                        ),
                    );
                }
                if n == k {
                    Node::And(args_ids)
                } else if k == 1 {
                    Node::Or(args_ids)
                } else {
                    let clause_size = n - k;
                    if keep_vot {
                        // the threshold must fit the stored i64 payload
                        if k as u64 > i64::MAX as u64 {
                            proof {
                                assert(!ph_plan_ok(tbl, nodes0[nid as int], keep_vot));
                            }
                            return Err(
                                FtError::Structure(String::from_str("voting threshold too large")),
                            );
                        }
                        Node::Vot(k as i64, args_ids)
                    } else {
                        let ghost b0 = self.nodes@.len() as int;
                        let ghost aux = kofn_aux(ids, clause_size as nat);
                        proof {
                            assert(self.nodes@ == iter_base);
                        }
                        let mut roots: Vec<NodeId> = args_ids;
                        let mut aux_ids: Vec<NodeId> = Vec::new();
                        proof {
                            assert(roots@ == ids);
                            assert forall|j: int|
                                0 <= j < roots@.len() implies #[trigger] roots@[j]
                                < self.nodes@.len() by {
                                assert(ids[j] < len0);
                            }
                        }
                        while roots.len() > clause_size
                            invariant
                                norm_wf(*self),
                                self.root_id == old(self).root_id,
                                self.lookup_table == old(self).lookup_table,
                                tbl == old(self).lookup_table@,
                                nodes0 == old(self).nodes@,
                                len0 == nodes0.len(),
                                nid < len0,
                                nodes0[nid as int] is PlaceHolder,
                                has_of(nodes0[nid as int]->PlaceHolder_1@),
                                b0 >= len0,
                                b0 <= self.nodes@.len(),
                                aux == kofn_aux(ids, clause_size as nat),
                                forall|j: int|
                                    0 <= j < roots@.len() ==> #[trigger] roots@[j]
                                        < self.nodes@.len(),
                                aux_ids@.len() == self.nodes@.len() - b0,
                                forall|t: int|
                                    0 <= t < aux_ids@.len() ==> #[trigger] aux_ids@[t] == b0 + t,
                                aux =~= appended_aux(self.nodes@, b0, aux_ids@.len() as int)
                                    + kofn_aux(roots@, clause_size as nat),
                                forall|t: int|
                                    0 <= t < aux_ids@.len() ==> (#[trigger] self.nodes@[b0 + t])
                                        is Or,
                                forall|i: int| 0 <= i < b0 ==> #[trigger] self.nodes@[i]
                                    == iter_base[i],
                                forall|i: int|
                                    len0 <= i < self.nodes@.len() ==> !((
                                    #[trigger] self.nodes@[i]) is PlaceHolder) && !(
                                    self.nodes@[i] is Vot),
                            decreases roots@.len(),
                        {
                            let elem = match roots.pop() {
                                Some(e) => e,
                                None => {
                                    proof {
                                        assert(false);
                                    }
                                    0
                                },
                            };
                            let ghost pre_roots = roots@;
                            let subsets = combinations(&roots, 0, clause_size);
                            proof {
                                assert(roots@.subrange(0, roots@.len() as int) =~= roots@);
                                lemma_combs_elems(roots@, clause_size as nat);
                                assert(kofn_aux(pre_roots.push(elem), clause_size as nat)
                                    == Seq::new(combs(pre_roots, clause_size as nat).len(),
                                    |t: int| seq![elem] + combs(pre_roots, clause_size as nat)[t])
                                    + kofn_aux(pre_roots, clause_size as nat)) by {
                                    assert(pre_roots.push(elem).drop_last() =~= pre_roots);
                                    assert(pre_roots.push(elem).last() == elem);
                                }
                            }
                            let mut si: usize = 0;
                            while si < subsets.len()
                                invariant
                                    norm_wf(*self),
                                    self.root_id == old(self).root_id,
                                    self.lookup_table == old(self).lookup_table,
                                    tbl == old(self).lookup_table@,
                                    nodes0 == old(self).nodes@,
                                    len0 == nodes0.len(),
                                    nid < len0,
                                    nodes0[nid as int] is PlaceHolder,
                                    has_of(nodes0[nid as int]->PlaceHolder_1@),
                                    b0 >= len0,
                                    b0 <= self.nodes@.len(),
                                    si <= subsets@.len(),
                                    elem < self.nodes@.len(),
                                    aux == kofn_aux(ids, clause_size as nat),
                                    subsets@.len() == combs(roots@, clause_size as nat).len(),
                                    forall|t: int|
                                        0 <= t < subsets@.len() ==> #[trigger] subsets@[t]@
                                            == combs(roots@, clause_size as nat)[t],
                                    forall|j: int|
                                        0 <= j < roots@.len() ==> #[trigger] roots@[j]
                                            < self.nodes@.len(),
                                    forall|s2: int, j: int|
                                        0 <= s2 < subsets@.len() && 0 <= j < subsets@[s2]@.len()
                                            ==> #[trigger] subsets@[s2]@[j] < self.nodes@.len(),
                                    aux_ids@.len() == self.nodes@.len() - b0,
                                    forall|t: int|
                                        0 <= t < aux_ids@.len() ==> #[trigger] aux_ids@[t] == b0
                                            + t,
                                    aux =~= appended_aux(self.nodes@, b0, aux_ids@.len() as int)
                                        + Seq::new(
                                        (combs(roots@, clause_size as nat).len() - si) as nat,
                                        |t: int| seq![elem] + combs(roots@, clause_size as nat)[
                                        si + t],
                                    ) + kofn_aux(roots@, clause_size as nat),
                                    forall|t: int|
                                        0 <= t < aux_ids@.len() ==> (#[trigger] self.nodes@[b0
                                            + t]) is Or,
                                    forall|i: int| 0 <= i < b0 ==> #[trigger] self.nodes@[i]
                                        == iter_base[i],
                                    forall|i: int|
                                        len0 <= i < self.nodes@.len() ==> !((
                                        #[trigger] self.nodes@[i]) is PlaceHolder) && !(
                                        self.nodes@[i] is Vot),
                                decreases subsets@.len() - si,
                            {
                                let mut new_args: Vec<NodeId> = Vec::new();
                                new_args.push(elem);
                                let mut sj: usize = 0;
                                while sj < subsets[si].len()
                                    invariant
                                        si < subsets@.len(),
                                        sj <= subsets@[si as int]@.len(),
                                        new_args@ == seq![elem] + subsets@[si as int]@.subrange(
                                            0,
                                            sj as int,
                                        ),
                                        elem < self.nodes@.len(),
                                        forall|s2: int, j: int|
                                            0 <= s2 < subsets@.len() && 0 <= j
                                                < subsets@[s2]@.len() ==> #[trigger] subsets@[
                                            s2]@[j] < self.nodes@.len(),
                                    decreases subsets@[si as int]@.len() - sj,
                                {
                                    new_args.push(subsets[si][sj]);
                                    proof {
                                        assert((seq![elem] + subsets@[si as int]@.subrange(
                                            0,
                                            sj as int,
                                        )).push(subsets@[si as int]@[sj as int]) =~= seq![elem]
                                            + subsets@[si as int]@.subrange(0, sj + 1));
                                    }
                                    sj = sj + 1;
                                }
                                proof {
                                    assert(subsets@[si as int]@.subrange(
                                        0,
                                        subsets@[si as int]@.len() as int,
                                    ) =~= subsets@[si as int]@);
                                    assert(new_args@ == seq![elem] + combs(
                                        roots@,
                                        clause_size as nat,
                                    )[si as int]);
                                }
                                if self.node_counter == usize::MAX {
                                    proof {
                                        assert(expanding_ph(nodes0[nid as int]));
                                    }
                                    return Err(
                                        FtError::Structure(String::from_str("tree too large")),
                                    );
                                }
                                let ghost pre_nodes = self.nodes@;
                                self.append_node(Node::Or(new_args));
                                aux_ids.push(self.nodes.len() - 1);
                                proof {
                                    assert(forall|i2: int|
                                        0 <= i2 < pre_nodes.len() ==> #[trigger] self.nodes@[i2]
                                            == pre_nodes[i2]);
                                    lemma_aux_extend(pre_nodes, self.nodes@, b0,
                                        (aux_ids@.len() - 1) as int);
                                    assert(aux =~= appended_aux(
                                        self.nodes@,
                                        b0,
                                        aux_ids@.len() as int,
                                    ) + Seq::new(
                                        (combs(roots@, clause_size as nat).len() - si - 1) as nat,
                                        |t: int| seq![elem] + combs(roots@, clause_size as nat)[
                                        si + 1 + t],
                                    ) + kofn_aux(roots@, clause_size as nat));
                                }
                                si = si + 1;
                            }
                        }
                        proof {
                            assert(kofn_aux(roots@, clause_size as nat) =~= Seq::<Seq<
                                NodeId,
                            >>::empty());
                            assert(aux =~= appended_aux(self.nodes@, b0, aux_ids@.len() as int));
                        }
                        let nd = Node::And(aux_ids);
                        proof {
                            assert(node_children(nd) =~= Seq::new(
                                aux.len(),
                                |t: int| (b0 + t) as NodeId,
                            ));
                            assert forall|t: int|
                                0 <= t < aux.len() implies (#[trigger] self.nodes@[b0 + t]) is Or
                                && node_children(self.nodes@[b0 + t]) == aux[t] by {
                                assert(appended_aux(self.nodes@, b0, aux.len() as int)[t]
                                    == node_children(self.nodes@[b0 + t]));
                            }
                            assert(expansion_at(nd, self.nodes@, len0, aux, b0));
                            exp_b = b0;
                            exp_aux = aux;
                            assert(exp_aux == kofn_aux(ids, (n - k) as nat));
                        }
                        nd
                    }
                }
            };
            let ghost pre_update = self.nodes@;
            self.update_roots(node, nid);
            proof {
                assert forall|i: int|
                    0 <= i < self.nodes@.len() && i != nid implies #[trigger] self.nodes@[i]
                    == pre_update[i] by {}
                assert(ph_plan_ok(tbl, nodes0[nid as int], keep_vot));
                let o = before->PlaceHolder_1@;
                let after = self.nodes@[nid as int];
                assert(after == node);
                if o == "or"@ || o == "xor"@ || o == "and"@ || o == "not"@ {
                } else {
                    let kk = crate::dec::val_chars(kofn_k_txt(o));
                    let nn = crate::dec::val_chars(kofn_n_txt(o));
                    if kk == nn || kk == 1 || keep_vot {
                    } else {
                        assert(expansion_at(node, pre_update, len0, exp_aux, exp_b));
                        assert forall|t: int|
                            0 <= t < exp_aux.len() implies (#[trigger] self.nodes@[exp_b + t])
                            is Or && node_children(self.nodes@[exp_b + t]) == exp_aux[t] by {
                            assert(self.nodes@[exp_b + t] == pre_update[exp_b + t]);
                        }
                        assert(expansion_at(node, self.nodes@, len0, exp_aux, exp_b));
                        assert(expanded(node, self.nodes@, len0, exp_aux));
                    }
                }
                assert(ph_resolved(tbl, nodes0[nid as int], self.nodes@[nid as int], self.nodes@,
                    len0, keep_vot));
                assert forall|x: int|
                    0 <= x < pi + 1 implies ph_plan_ok(
                    tbl,
                    nodes0[#[trigger] plist@[x] as int],
                    keep_vot,
                ) && ph_resolved(
                    tbl,
                    nodes0[plist@[x] as int],
                    self.nodes@[plist@[x] as int],
                    self.nodes@,
                    len0,
                    keep_vot,
                ) by {
                    if x < pi {
                        let px = plist@[x] as int;
                        assert(pre_update[px] == iter_base[px]);
                        assert(self.nodes@[px] == iter_base[px]);
                        lemma_ph_resolved_stable(tbl, nodes0[px], iter_base[px], iter_base,
                            pre_update, len0, keep_vot);
                        lemma_ph_resolved_stable(tbl, nodes0[px], iter_base[px], pre_update,
                            self.nodes@, len0, keep_vot);
                    }
                }
            }
            pi = pi + 1;
        }
        proof {
            assert forall|i: int|
                0 <= i < len0 implies ph_plan_ok(tbl, #[trigger] nodes0[i], keep_vot)
                && ph_resolved(tbl, nodes0[i], self.nodes@[i], self.nodes@, len0, keep_vot) by {
                if nodes0[i] is PlaceHolder {
                    let x0 = choose|x0: int|
                        0 <= x0 < plist@.len() && #[trigger] plist@[x0] == i;
                } else {
                    assert(self.nodes@[i] == nodes0[i]);
                }
            }
            assert forall|i: int|
                0 <= i < self.nodes@.len() implies !((#[trigger] self.nodes@[i]) is PlaceHolder)
                && (!keep_vot ==> !(self.nodes@[i] is Vot)) by {
                if i < len0 {
                    if nodes0[i] is PlaceHolder {
                        assert(ph_resolved(tbl, nodes0[i], self.nodes@[i], self.nodes@, len0,
                            keep_vot));
                        lemma_ph_resolved_shape(tbl, nodes0[i], self.nodes@[i], self.nodes@,
                            len0, keep_vot);
                    }
                }
            }
        }
        Ok(())
    }

    /// Reads the declaration lines, applies the single-child simplification
    /// when asked, resolves every placeholder and the root name.
    pub fn read_from_lines(&mut self, lines: &Vec<String>, simplify: bool) -> (r: Result<
        (),
        FtError,
    >)
        requires
            norm_wf(*old(self)),
            all_be_or_ph(old(self).nodes@),
        ensures
            norm_wf(*final(self)),
            r is Ok ==> norm_done(*final(self)),
            r is Ok ==> lookup_spec(
                final(self).lookup_table@,
                vrewritten(
                    mapper_fold(lines@, lines@.len() as int, simplify),
                    root_name_fold(lines@, lines@.len() as int, simplify),
                ),
            ) == Some(final(self).root_id),
            r is Ok ==> final(self).lookup_table@.map_values(|e: (String, NodeId)| e.0@) == old(
                self,
            ).lookup_table@.map_values(|e: (String, NodeId)| e.0@) + names_fold(
                lines@,
                lines@.len() as int,
                simplify,
            ),
            r is Ok ==> forall|k: int|
                old(self).lookup_table@.len() <= k < final(self).lookup_table@.len() ==> (
                #[trigger] final(self).lookup_table@[k]).1 == old(self).nodes@.len() + k - old(
                    self,
                ).lookup_table@.len(),
            r is Ok ==> exists|mid1: Seq<Node>, m: Seq<(String, String)>, mid2: Seq<Node>|
                #[trigger] staged_nodes(lines@, simplify, old(self).nodes@, mid1, m, mid2)
                    && final(self).nodes@.len() >= mid2.len() && (forall|i: int|
                    0 <= i < mid2.len() ==> ph_resolved(
                        final(self).lookup_table@,
                        mid2[i],
                        #[trigger] final(self).nodes@[i],
                        final(self).nodes@,
                        mid2.len() as int,
                        false,
                    )),
            r is Err ==> {
                ||| !lines_ok(
                    old(self).lookup_table@.map_values(|e: (String, NodeId)| e.0@),
                    old(self).nodes@.len() as int,
                    lines@,
                    lines@.len() as int,
                    simplify,
                )
                ||| (simplify && exists|m: Seq<(String, String)>| #[trigger] chains_blocked(
                    lines@,
                    m,
                ))
                ||| (table_tied(*old(self), *final(self), lines@, simplify) && exists|
                    mid1: Seq<Node>,
                    m: Seq<(String, String)>,
                    mid2: Seq<Node>,
                    i: int,
                |
                    #![trigger staged_nodes(lines@, simplify, old(self).nodes@, mid1, m, mid2), ph_plan_ok(final(self).lookup_table@, mid2[i], false)]
                    staged_nodes(lines@, simplify, old(self).nodes@, mid1, m, mid2) && 0 <= i
                        < mid2.len() && !ph_plan_ok(final(self).lookup_table@, mid2[i], false))
                ||| (final(self).node_counter == usize::MAX && exists|
                    mid1: Seq<Node>,
                    m: Seq<(String, String)>,
                    mid2: Seq<Node>,
                    i: int,
                |
                    #![trigger staged_nodes(lines@, simplify, old(self).nodes@, mid1, m, mid2), mid2[i]]
                    staged_nodes(lines@, simplify, old(self).nodes@, mid1, m, mid2) && 0 <= i
                        < mid2.len() && expanding_ph(mid2[i]))
                ||| (table_tied(*old(self), *final(self), lines@, simplify) && lookup_spec(
                    final(self).lookup_table@,
                    vrewritten(
                        mapper_fold(lines@, lines@.len() as int, simplify),
                        root_name_fold(lines@, lines@.len() as int, simplify),
                    ),
                ) is None)
            },
    {
        let first = match self.read_file(lines, simplify) {
            Ok(p) => p,
            Err(e) => {
                return Err(e);
            },
        };
        let ghost gmid1 = self.nodes@;
        let mut root_name = first.0;
        let mapper = first.1;
        let ghost rfold = root_name_fold(lines@, lines@.len() as int, simplify);
        let ghost mfold = mapper_fold(lines@, lines@.len() as int, simplify);
        if simplify {
            match self.preprocess_placeholders(&mapper) {
                Ok(_) => {},
                Err(e) => {
                    proof {
                        assert(chains_blocked(lines@, mapper@));
                    }
                    return Err(e);
                },
            }
            // the recorded root name follows its chain to the terminal
            root_name = resolve_chain(&mapper, &root_name);
            proof {
                lemma_vrewritten(mapper@, rfold);
                assert(root_name@ == vrewritten(mfold, rfold));
            }
        } else {
            proof {
                lemma_mapper_fold_nosimp(lines@, lines@.len() as int);
                assert(root_name@ == vrewritten(mfold, rfold));
            }
        }
        let ghost gmid2 = self.nodes@;
        proof {
            assert(staged_nodes(lines@, simplify, old(self).nodes@, gmid1, mapper@, gmid2));
        }
        match self.fill_placeholders(false) {
            Ok(_) => {},
            Err(e) => {
                proof {
                    if exists|i: int|
                        0 <= i < gmid2.len() && !ph_plan_ok(
                            self.lookup_table@,
                            #[trigger] gmid2[i],
                            false,
                        ) {
                        let i = choose|i: int|
                            0 <= i < gmid2.len() && !ph_plan_ok(
                                self.lookup_table@,
                                #[trigger] gmid2[i],
                                false,
                            );
                        assert(staged_nodes(
                            lines@,
                            simplify,
                            old(self).nodes@,
                            gmid1,
                            mapper@,
                            gmid2,
                        ) && 0 <= i < gmid2.len() && !ph_plan_ok(
                            self.lookup_table@,
                            gmid2[i],
                            false,
                        ));
                    } else {
                        let i = choose|i: int|
                            0 <= i < gmid2.len() && expanding_ph(#[trigger] gmid2[i]);
                        assert(staged_nodes(
                            lines@,
                            simplify,
                            old(self).nodes@,
                            gmid1,
                            mapper@,
                            gmid2,
                        ) && 0 <= i < gmid2.len() && expanding_ph(gmid2[i]));
                    }
                }
                return Err(e);
            },
        }
        match self.lookup(&root_name) {
            Some(rid) => {
                proof {
                    lemma_lookup_in_range(*self, root_name@);
                    assert(staged_nodes(lines@, simplify, old(self).nodes@, gmid1, mapper@, gmid2)
                        && self.nodes@.len() >= gmid2.len() && (forall|i: int|
                        0 <= i < gmid2.len() ==> ph_resolved(
                            self.lookup_table@,
                            gmid2[i],
                            #[trigger] self.nodes@[i],
                            self.nodes@,
                            gmid2.len() as int,
                            false,
                        )));
                }
                self.root_id = rid;
                Ok(())
            },
            None => Err(FtError::Structure(String::from_str("unresolved root name"))),
        }
    }
}

} // verus!

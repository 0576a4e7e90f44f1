use vstd::prelude::*;

use crate::dec::{Dec, dec_wf, dec_num, dec_is_prob, p10, token_ok, token_value_rel, parse_dec_tok,
    dec_complement};
use crate::fault_tree::{FaultTree, ft_wf};
use crate::nodes::{Node, Distribution};
use crate::strutil::{nat_str, push_usize, push_str_chars, push_all, chars_to_string, str_to_chars};
use crate::FtError;
use vstd::string::StringExecFns;

verus! {

/// Execution configuration shared by the analysis commands.
pub struct Config {
    /// Max cache size to distribute between the threads, in KB.
    pub max_cache_size: usize,
    /// Negate the top gate if it is an OR, to favor unit propagation.
    pub negate_or: bool,
    /// Execution timeout for the WMC solver in seconds.
    pub timeout_s: u64,
    /// Output format for the CNF formula.
    pub format: String,
    /// Number of threads to use.
    pub num_threads: usize,
    /// Verbosity: print more information.
    pub verb: bool,
    /// Display progress, if possible.
    pub display: bool,
    /// Simplify the tree by removing single-child gates.
    pub simplify: bool,
    /// An optional CNF preprocessor to run first.
    pub preprocess: Option<String>,
}

/// The execution switches shared by every analysis command.
pub struct ExtraArgs {
    /// Max cache size to distribute between the threads, in KB.
    pub max_cache_size: usize,
    /// Negate the top gate if it is an OR, to favor unit propagation.
    pub negate_or: bool,
    /// Execution timeout for the WMC solver in seconds.
    pub timeout_s: u64,
    /// Output format for the CNF formula.
    pub format: String,
    /// Number of threads to use.
    pub num_threads: usize,
    /// Verbosity in the output.
    pub verb: bool,
    /// Display progress messages where possible.
    pub display: bool,
    /// Simplify the tree by removing single-child gates.
    pub simplify: bool,
    /// An optional CNF preprocessor to run first.
    pub preprocess: Option<String>,
}

/// The chunk of module identifiers each round of parallel substitution
/// takes: at least one chunk per thread, and never smaller than the number
/// of threads, so small jobs are serialized.
pub fn chunk_size(n_modules: usize, num_threads: usize) -> (r: usize)
    requires
        num_threads >= 1,
    ensures
        ({
            let ceil = n_modules / num_threads + (if n_modules % num_threads == 0 {
                0int
            } else {
                1int
            });
            r == if ceil >= num_threads {
                ceil
            } else {
                num_threads as int
            }
        }),
{
    let d = n_modules / num_threads;
    let ceil = if n_modules % num_threads == 0 {
        d
    } else {
        proof {
            vstd::arithmetic::div_mod::lemma_fundamental_div_mod(
                n_modules as int,
                num_threads as int,
            );
            assert(num_threads >= 2);
            assert(2 * d <= num_threads * d) by (nonlinear_arith)
                requires
                    num_threads >= 2,
                    d >= 0,
            ;
            assert(d < n_modules);
        }
        d + 1
    };
    if ceil >= num_threads {
        ceil
    } else {
        num_threads
    }
}

/// The magnitude of a signed value.
pub open spec fn abs_int(x: int) -> int {
    if x < 0 {
        -x
    } else {
        x
    }
}

/// The fractional digits the criticality quotient is truncated to.
pub const CRIT_PREC: u32 = 15;

/// The three importance measures fit the exact number range: the two
/// differences, their alignment products, and the truncated quotient.
pub open spec fn imp_fits(pt: Dec, pos: Dec, neg: Dec, q: Dec) -> bool {
    let s0 = if pos.scale >= neg.scale {
        pos.scale
    } else {
        neg.scale
    };
    let ibm = abs_int(
        dec_num(pos) * p10((s0 - pos.scale) as nat) - dec_num(neg) * p10((s0 - neg.scale) as nat),
    );
    &&& crate::dec::add_fits(pos, crate::dec::Dec { neg: !neg.neg, mant: neg.mant, scale: neg.scale })
    &&& crate::dec::add_fits(pos, crate::dec::Dec { neg: !pt.neg, mant: pt.mant, scale: pt.scale })
    &&& ibm * q.mant <= u128::MAX
    &&& s0 + q.scale <= crate::dec::MAX_SCALE
    &&& pt.mant > 0
    &&& !(pt.scale + CRIT_PREC > s0 + q.scale && pt.mant > crate::dec::DIV_LIMIT)
    &&& ((ibm * q.mant) * p10((pt.scale + CRIT_PREC) as nat)) / ((pt.mant * p10(
        (s0 + q.scale) as nat,
    )) as int) <= u128::MAX
}

/// Combines the solver results for one basic event into its importance
/// measures: the Birnbaum measure is the difference of the raised and the
/// lowered probability, the improvement potential compares the raised
/// probability with the baseline, and the criticality scales the Birnbaum
/// measure by the event's probability over the baseline.
pub fn importance_from(true_tep: &Dec, pos_tep: &Dec, neg_tep: &Dec, q: &Dec) -> (r: Option<
    (Dec, Dec, Dec),
>)
    requires
        dec_wf(*true_tep),
        dec_wf(*pos_tep),
        dec_wf(*neg_tep),
        dec_wf(*q),
    ensures
        r matches Some(t) ==> {
            let s0 = if pos_tep.scale >= neg_tep.scale {
                pos_tep.scale
            } else {
                neg_tep.scale
            };
            let s1 = if pos_tep.scale >= true_tep.scale {
                pos_tep.scale
            } else {
                true_tep.scale
            };
            &&& dec_wf(t.0) && dec_wf(t.1) && dec_wf(t.2)
            &&& t.0.scale == s0
            &&& dec_num(t.0) == dec_num(*pos_tep) * p10((s0 - pos_tep.scale) as nat) - dec_num(
                *neg_tep,
            ) * p10((s0 - neg_tep.scale) as nat)
            &&& t.1.scale == s1
            &&& dec_num(t.1) == dec_num(*pos_tep) * p10((s1 - pos_tep.scale) as nat) - dec_num(
                *true_tep,
            ) * p10((s1 - true_tep.scale) as nat)
            &&& t.2.scale == CRIT_PREC
            &&& t.2.mant == ((t.0.mant * q.mant) * p10((true_tep.scale + CRIT_PREC) as nat)) / ((
            true_tep.mant * p10((t.0.scale + q.scale) as nat)) as int)
        },
        r is Some <==> imp_fits(*true_tep, *pos_tep, *neg_tep, *q),
{
    let ib = match crate::dec::dec_sub(pos_tep, neg_tep) {
        Some(v) => v,
        None => {
            return None;
        },
    };
    proof {
        assert(ib.mant == abs_int(dec_num(ib)));
    }
    let ip = match crate::dec::dec_sub(pos_tep, true_tep) {
        Some(v) => v,
        None => {
            return None;
        },
    };
    let prod = match crate::dec::dec_mul(&ib, q) {
        Some(v) => v,
        None => {
            proof {
                lemma_abs_mul(dec_num(ib), ib.mant as int, dec_num(*q), q.mant as int);
            }
            return None;
        },
    };
    proof {
        lemma_abs_mul(dec_num(ib), ib.mant as int, dec_num(*q), q.mant as int);
        assert(prod.mant == ib.mant * q.mant) by {
            assert(abs_int(dec_num(prod)) == prod.mant);
            assert(abs_int(dec_num(ib) * dec_num(*q)) == ib.mant * q.mant);
        }
    }
    match crate::dec::dec_div(&prod, true_tep, CRIT_PREC) {
        Some(c) => Some((ib, ip, c)),
        None => None,
    }
}

proof fn lemma_abs_mul(a: int, am: int, b: int, bm: int)
    requires
        abs_int(a) == am,
        abs_int(b) == bm,
    ensures
        abs_int(a * b) == am * bm,
{
    assert(abs_int(a * b) == abs_int(a) * abs_int(b)) by (nonlinear_arith);
}

/// The lines of a solver's standard output, split at line breaks.
pub open spec fn lines_acc(s: Seq<char>, cur: Seq<char>) -> Seq<Seq<char>>
    decreases s.len(),
{
    if s.len() == 0 {
        seq![cur]
    } else if s[0] == '\n' {
        seq![cur] + lines_acc(s.drop_first(), Seq::empty())
    } else {
        lines_acc(s.drop_first(), cur.push(s[0]))
    }
}

/// The lines of a text, as `str::split` at line breaks yields them.
pub open spec fn lines_spec(s: Seq<char>) -> Seq<Seq<char>> {
    lines_acc(s, Seq::empty())
}

/// The concatenation of every line that starts with the prefix.
pub open spec fn joined_matching(ls: Seq<Seq<char>>, prefix: Seq<char>) -> Seq<char>
    decreases ls.len(),
{
    if ls.len() == 0 {
        Seq::empty()
    } else {
        (if prefix.is_prefix_of(ls[0]) {
            ls[0]
        } else {
            Seq::empty()
        }) + joined_matching(ls.drop_first(), prefix)
    }
}

/// The characters after the last space, or the whole text without one.
pub open spec fn last_token(s: Seq<char>) -> Seq<char>
    decreases s.len(),
{
    if s.len() == 0 {
        Seq::empty()
    } else if s.last() == ' ' {
        Seq::empty()
    } else {
        last_token(s.drop_last()).push(s.last())
    }
}

/// The token the result line parser hands to the number parser: the final
/// space-separated piece of the matching lines, joined.
pub open spec fn tep_token(stdout: Seq<char>, prefix: Seq<char>) -> Seq<char> {
    last_token(joined_matching(lines_spec(stdout), prefix))
}

/// Splits a text into lines.
pub(crate) fn split_lines(s: &Vec<char>) -> (r: Vec<Vec<char>>)
    ensures
        r@.len() == lines_spec(s@).len(),
        forall|i: int| 0 <= i < r@.len() ==> #[trigger] r@[i]@ == lines_spec(s@)[i],
{
    let n = s.len();
    let mut out: Vec<Vec<char>> = Vec::new();
    let mut cur: Vec<char> = Vec::new();
    let mut i: usize = 0;
    proof {
        assert(s@.subrange(0, n as int) =~= s@);
    }
    while i < n
        invariant
            i <= n,
            n == s@.len(),
            lines_spec(s@) == out@.map_values(|t: Vec<char>| t@) + lines_acc(
                s@.subrange(i as int, n as int),
                cur@,
            ),
        decreases n - i,
    {
        let ghost rest = s@.subrange(i as int, n as int);
        proof {
            assert(rest.drop_first() =~= s@.subrange(i + 1, n as int));
        }
        let c = s[i];
        if c == '\n' {
            let ghost pre = out@;
            out.push(cur);
            proof {
                assert(out@.map_values(|t: Vec<char>| t@) =~= pre.map_values(
                    |t: Vec<char>| t@,
                ).push(cur@));
                assert(pre.map_values(|t: Vec<char>| t@) + (seq![cur@] + lines_acc(
                    rest.drop_first(),
                    Seq::empty(),
                )) =~= out@.map_values(|t: Vec<char>| t@) + lines_acc(
                    rest.drop_first(),
                    Seq::empty(),
                ));
            }
            cur = Vec::new();
        } else {
            cur.push(c);
        }
        i = i + 1;
    }
    proof {
        assert(s@.subrange(n as int, n as int) =~= Seq::<char>::empty());
    }
    let ghost pre = out@;
    out.push(cur);
    proof {
        assert(out@.map_values(|t: Vec<char>| t@) =~= pre.map_values(|t: Vec<char>| t@).push(
            cur@,
        ));
        assert(pre.map_values(|t: Vec<char>| t@) + seq![cur@] =~= out@.map_values(
            |t: Vec<char>| t@,
        ));
        assert forall|i2: int| 0 <= i2 < out@.len() implies #[trigger] out@[i2]@ == lines_spec(
            s@,
        )[i2] by {
            assert(out@.map_values(|t: Vec<char>| t@)[i2] == out@[i2]@);
        }
    }
    out
}

/// Whether the line starts with the prefix.
pub(crate) fn has_prefix(line: &Vec<char>, prefix: &Vec<char>) -> (r: bool)
    ensures
        r == prefix@.is_prefix_of(line@),
{
    if line.len() < prefix.len() {
        proof {
            assert(!prefix@.is_prefix_of(line@));
        }
        return false;
    }
    let mut i: usize = 0;
    while i < prefix.len()
        invariant
            i <= prefix@.len(),
            prefix@.len() <= line@.len(),
            forall|j: int| 0 <= j < i ==> prefix@[j] == line@[j],
        decreases prefix@.len() - i,
    {
        if prefix[i] != line[i] {
            proof {
                assert(!prefix@.is_prefix_of(line@)) by {
                    assert(prefix@[i as int] != line@[i as int]);
                }
            }
            return false;
        }
        i = i + 1;
    }
    proof {
        assert(prefix@ =~= line@.subrange(0, prefix@.len() as int));
    }
    true
}

/// Parses the numeric result out of a solver's standard output: the lines
/// with the given prefix are joined and the final space-separated piece is
/// read as a decimal.  Malformed output is an error.
pub fn parse_tep(stdout: &String, prefix: &Vec<char>) -> (r: Result<Dec, FtError>)
    ensures
        r matches Ok(d) ==> token_value_rel(tep_token(stdout@, prefix@), d) && dec_is_prob(d)
            && dec_wf(d),
        r is Err <==> !(token_ok(tep_token(stdout@, prefix@)) && crate::dec::token_prob(
            tep_token(stdout@, prefix@),
        )),
{
    let chars = str_to_chars(stdout.as_str());
    let ls = split_lines(&chars);
    let mut joined: Vec<char> = Vec::new();
    let mut i: usize = 0;
    let ghost lsv = lines_spec(stdout@);
    proof {
        assert(joined_matching(lsv.subrange(0, 0), prefix@) =~= Seq::<char>::empty());
        assert(joined@ =~= joined_matching(lsv.subrange(0, 0), prefix@));
    }
    while i < ls.len()
        invariant
            i <= ls@.len(),
            ls@.len() == lsv.len(),
            forall|j: int| 0 <= j < ls@.len() ==> #[trigger] ls@[j]@ == lsv[j],
            joined@ == joined_matching(lsv.subrange(0, i as int), prefix@),
        decreases ls@.len() - i,
    {
        proof {
            lemma_joined_push(lsv, i as int, prefix@);
        }
        if has_prefix(&ls[i], prefix) {
            push_all(&mut joined, &ls[i]);
        }
        i = i + 1;
    }
    proof {
        assert(lsv.subrange(0, lsv.len() as int) =~= lsv);
    }
    // take the piece after the last space
    let mut tail: Vec<char> = Vec::new();
    let mut start: usize = joined.len();
    let mut broke = false;
    while start > 0 && !broke
        invariant
            start <= joined@.len(),
            forall|j: int| start <= j < joined@.len() ==> #[trigger] joined@[j] != ' ',
            broke ==> start > 0 && joined@[start - 1] == ' ',
        decreases start + (if broke {
            0int
        } else {
            1int
        }),
    {
        if joined[start - 1] == ' ' {
            broke = true;
        } else {
            start = start - 1;
        }
    }
    proof {
        lemma_last_token_eq(joined@, start as int);
    }
    let mut t: usize = start;
    while t < joined.len()
        invariant
            start <= t <= joined@.len(),
            tail@ == joined@.subrange(start as int, t as int),
        decreases joined@.len() - t,
    {
        tail.push(joined[t]);
        proof {
            assert(joined@.subrange(start as int, t as int).push(joined@[t as int])
                =~= joined@.subrange(start as int, t + 1));
        }
        t = t + 1;
    }
    proof {
        assert(tail@ == joined@.subrange(start as int, joined@.len() as int));
        assert(tail@ == last_token(joined@));
    }
    match parse_dec_tok(&tail) {
        Some(d) => {
            proof {
                reveal(crate::dec::token_value_rel);
                reveal(crate::dec::token_prob);
            }
            if !crate::dec::dec_prob_ok(&d) {
                // a counter reporting a value outside the unit interval
                return Err(FtError::SolverOutput);
            }
            Ok(d)
        },
        None => {
            proof {
                reveal(crate::dec::token_ok);
                reveal(crate::dec::token_prob);
            }
            Err(FtError::SolverOutput)
        },
    }
}

proof fn lemma_joined_push(ls: Seq<Seq<char>>, i: int, prefix: Seq<char>)
    requires
        0 <= i < ls.len(),
    ensures
        joined_matching(ls.subrange(0, i + 1), prefix) == joined_matching(
            ls.subrange(0, i),
            prefix,
        ) + (if prefix.is_prefix_of(ls[i]) {
            ls[i]
        } else {
            Seq::<char>::empty()
        }),
    decreases i,
{
    if i == 0 {
        assert(ls.subrange(0, 1).drop_first() =~= Seq::<Seq<char>>::empty());
        assert(ls.subrange(0, 1)[0] == ls[0]);
        assert(joined_matching(Seq::<Seq<char>>::empty(), prefix) =~= Seq::<char>::empty());
        assert(ls.subrange(0, 0) =~= Seq::<Seq<char>>::empty());
        assert((if prefix.is_prefix_of(ls[0]) {
            ls[0]
        } else {
            Seq::<char>::empty()
        }) + Seq::<char>::empty() =~= Seq::<char>::empty() + (if prefix.is_prefix_of(ls[0]) {
            ls[0]
        } else {
            Seq::<char>::empty()
        }));
    } else {
        lemma_joined_push(ls.drop_first(), i - 1, prefix);
        assert(ls.subrange(0, i + 1).drop_first() =~= ls.drop_first().subrange(0, i));
        assert(ls.subrange(0, i).drop_first() =~= ls.drop_first().subrange(0, i - 1));
        assert(ls.subrange(0, i + 1)[0] == ls[0]);
        assert(ls.subrange(0, i)[0] == ls[0]);
        assert(ls.drop_first()[i - 1] == ls[i]);
        let head: Seq<char> = if prefix.is_prefix_of(ls[0]) {
            ls[0]
        } else {
            Seq::empty()
        };
        let tail: Seq<char> = if prefix.is_prefix_of(ls[i]) {
            ls[i]
        } else {
            Seq::empty()
        };
        assert(head + (joined_matching(ls.drop_first().subrange(0, i - 1), prefix) + tail) =~= (
        head + joined_matching(ls.drop_first().subrange(0, i - 1), prefix)) + tail);
    }
}

/// How a finished solver process is judged from its standard error: empty
/// means success, a lone `killed` line means the external timeout fired,
/// anything else is a hard failure.
pub enum SolverOutcome {
    CleanRun,
    TimedOut,
    Failed,
}

/// Classifies a solver's standard error; the text is lowercased before the
/// comparison.
pub fn classify_stderr(stderr: &String) -> (r: SolverOutcome)
    ensures
        r is CleanRun <==> stderr@.len() == 0,
        r is TimedOut <==> (stderr@.len() > 0 && crate::fault_tree_normalizer::lower_spec(stderr@)
            == "killed\n"@),
{
    let chars = str_to_chars(stderr.as_str());
    if chars.len() == 0 {
        return SolverOutcome::CleanRun;
    }
    let low = crate::fault_tree_normalizer::ascii_lower(&chars);
    let killed = str_to_chars("killed\n");
    if chars_eq(&low, &killed) {
        return SolverOutcome::TimedOut;
    }
    SolverOutcome::Failed
}

/// Whether two character vectors hold the same text.
fn chars_eq(a: &Vec<char>, b: &Vec<char>) -> (r: bool)
    ensures
        r == (a@ == b@),
{
    if a.len() != b.len() {
        return false;
    }
    let mut i: usize = 0;
    while i < a.len()
        invariant
            i <= a@.len(),
            a@.len() == b@.len(),
            forall|j: int| 0 <= j < i ==> a@[j] == b@[j],
        decreases a@.len() - i,
    {
        if a[i] != b[i] {
            return false;
        }
        i = i + 1;
    }
    proof {
        assert(a@ =~= b@);
    }
    true
}

/// The direct answer when the root of the tree is itself a basic event
/// with a known value: no solver has to run.
pub fn solver_shortcut(ft: &FaultTree, timepoint: &Dec, unav: bool) -> (r: Option<Dec>)
    requires
        ft_wf(*ft),
    ensures
        !(ft.nodes@[ft.root_id as int] is BasicEvent) ==> r is None,
        ft.nodes@[ft.root_id as int] matches Node::BasicEvent(_, be) ==> (be.dist matches
            Distribution::Discrete(p) ==> r == Some(p)),
{
    let root = &ft.nodes[ft.root_id];
    if !unav {
        root.unreliability(timepoint)
    } else {
        root.unavailability(timepoint)
    }
}

/// Folds the negation trick back: when the root is an OR gate and the
/// encoder negated it, the solver computed the complement, so the result
/// is one minus the solver's value.
pub fn finalize_tep(ft: &FaultTree, negate_top_or: bool, wmc: &Dec) -> (r: Dec)
    requires
        ft_wf(*ft),
        dec_wf(*wmc),
        dec_is_prob(*wmc),
    ensures
        dec_wf(r),
        dec_is_prob(r),
        (ft.nodes@[ft.root_id as int] is Or && negate_top_or) ==> dec_num(r) == p10(
            wmc.scale as nat,
        ) - dec_num(*wmc) && r.scale == wmc.scale,
        !(ft.nodes@[ft.root_id as int] is Or && negate_top_or) ==> r == *wmc,
{
    let top_is_or = match &ft.nodes[ft.root_id] {
        Node::Or(_) => true,
        _ => false,
    };
    if top_is_or && negate_top_or {
        dec_complement(wmc)
    } else {
        wmc.clone()
    }
}

/// The remaining solver budget after an auxiliary tool used part of it.
pub fn remaining_budget(timeout_s: u64, elapsed_s: u64) -> (r: u64)
    ensures
        r == if elapsed_s <= timeout_s {
            timeout_s - elapsed_s
        } else {
            0
        },
{
    if elapsed_s <= timeout_s {
        timeout_s - elapsed_s
    } else {
        0
    }
}

/// Whether a character is an ASCII letter or digit.
pub open spec fn is_alnum(c: char) -> bool {
    ('a' <= c && c <= 'z') || ('A' <= c && c <= 'Z') || ('0' <= c && c <= '9')
}

/// Relies on rand's thread_rng sampled through the Alphanumeric
/// distribution: five characters, each an ASCII letter or digit.
#[verifier::external_body]
fn random_alphanumeric5() -> (r: String)
    ensures
        r@.len() == 5,
        forall|i: int| 0 <= i < r@.len() ==> is_alnum(#[trigger] r@[i]),
{
    rand::Rng::sample_iter(rand::thread_rng(), &rand::distributions::Alphanumeric).take(5).map(
        char::from,
    ).collect()
}

/// A fresh temporary file path under the directory: a random five
/// character name avoids races between parallel solver runs.
pub fn tmp_file_path(tmpdir: &String) -> (r: String)
    ensures
        r@.len() == tmpdir@.len() + 6,
        r@.subrange(0, tmpdir@.len() as int) == tmpdir@,
        r@[tmpdir@.len() as int] == '/',
        forall|i: int| tmpdir@.len() + 1 <= i < r@.len() ==> is_alnum(#[trigger] r@[i]),
{
    let name = random_alphanumeric5();
    let mut out: Vec<char> = str_to_chars(tmpdir.as_str());
    out.push('/');
    push_str_chars(&mut out, name.as_str());
    proof {
        assert(out@.subrange(0, tmpdir@.len() as int) =~= tmpdir@);
    }
    chars_to_string(&out)
}

/// Whether the needle occurs anywhere in the haystack.
pub open spec fn contains_sub(hay: Seq<char>, needle: Seq<char>) -> bool {
    exists|i: int|
        0 <= i && i + needle.len() <= hay.len() && #[trigger] hay.subrange(i, i + needle.len())
            == needle
}

/// Scans for an occurrence of the needle.
pub(crate) fn find_sub(hay: &Vec<char>, needle: &Vec<char>) -> (r: bool)
    ensures
        r == contains_sub(hay@, needle@),
{
    let hn = hay.len();
    let nn = needle.len();
    if nn > hn {
        proof {
            assert(!contains_sub(hay@, needle@));
        }
        return false;
    }
    if nn == 0 {
        proof {
            assert(hay@.subrange(0, 0 + needle@.len() as int) =~= needle@);
        }
        return true;
    }
    let mut i: usize = 0;
    while i <= hn - nn
        invariant
            1 <= nn <= hn,
            hn == hay@.len(),
            nn == needle@.len(),
            i <= hn - nn + 1,
            forall|k: int|
                0 <= k < i ==> #[trigger] hay@.subrange(k, k + needle@.len()) != needle@,
        decreases hn - i,
    {
        let mut j: usize = 0;
        let mut matches_here = true;
        while j < nn && matches_here
            invariant
                i + nn <= hn,
                hn == hay@.len(),
                nn == needle@.len(),
                j <= nn,
                matches_here ==> forall|k: int| 0 <= k < j ==> hay@[i + k] == needle@[k],
                !matches_here ==> hay@.subrange(i as int, i + needle@.len()) != needle@,
            decreases nn - j + (if matches_here {
                1int
            } else {
                0int
            }),
        {
            if hay[i + j] != needle[j] {
                proof {
                    assert(hay@.subrange(i as int, i + needle@.len())[j as int] != needle@[
                    j as int]);
                }
                matches_here = false;
            } else {
                j = j + 1;
            }
        }
        if matches_here {
            proof {
                assert forall|k: int|
                    0 <= k < needle@.len() implies hay@.subrange(i as int, i + needle@.len())[k]
                    == needle@[k] by {
                    assert(hay@[i + k] == needle@[k]);
                }
                assert(hay@.subrange(i as int, i + needle@.len()) =~= needle@);
            }
            return true;
        }
        i = i + 1;
    }
    proof {
        assert forall|k: int|
            0 <= k && k + needle@.len() <= hay@.len() implies #[trigger] hay@.subrange(
            k,
            k + needle@.len(),
        ) != needle@ by {
            assert(k < i);
        }
    }
    false
}

/// A weighted model counter the engine can drive.  Each implementation
/// fixes the exact command line it runs and the prefix of its result line;
/// the process itself is started by the embedding program.
pub trait Solver {
    /// The exact command line for the given timeout.
    spec fn command_spec(&self, timeout_s: u64) -> Seq<char>;

    /// The prefix of the line carrying the numeric result.
    spec fn result_prefix(&self) -> Seq<char>;

    /// A human-readable name.
    fn _name(&self) -> String;

    /// Builds the command line, wrapped in the external timeout.
    fn get_command(&self, timeout_s: u64) -> (r: String)
        ensures
            r@ == self.command_spec(timeout_s),
    ;

    /// Reads the probability out of the solver's standard output.
    fn get_tep(&self, stdout: &String) -> (r: Result<Dec, FtError>)
        ensures
            r matches Ok(d) ==> token_value_rel(tep_token(stdout@, self.result_prefix()), d)
                && dec_is_prob(d) && dec_wf(d),
            r is Err <==> !(token_ok(tep_token(stdout@, self.result_prefix()))
                && crate::dec::token_prob(tep_token(stdout@, self.result_prefix()))),
    ;

    /// Caps the cache size, where the backend supports it.
    fn _set_cache_size(&mut self, new_cs: usize);
}

/// The SharpSAT-TD backend: file based, with tree-decomposition options.
pub struct SharpsatTDSolver {
    pub path: String,
    pub decot: usize,
    pub decow: usize,
    pub tmpdir: String,
    pub precision: usize,
    pub cs: Option<usize>,
}

impl SharpsatTDSolver {
    /// The default settings for the solver found at the path.
    pub fn new(path: &String) -> (r: Self)
        ensures
            r.path@ == path@,
            r.decot == 2,
            r.decow == 1,
            r.tmpdir@ == ".tmp"@,
            r.precision == 20,
            r.cs is None,
    {
        SharpsatTDSolver {
            path: path.clone(),
            decot: 2,
            decow: 1,
            tmpdir: String::from_str(".tmp"),
            precision: 20,
            cs: None,
        }
    }
}

impl Solver for SharpsatTDSolver {
    open spec fn command_spec(&self, timeout_s: u64) -> Seq<char> {
        "timeout -s KILL "@ + nat_str(timeout_s as nat) + "s "@ + self.path@ + " -WE -decot "@
            + nat_str(self.decot as nat) + " -decow "@ + nat_str(self.decow as nat) + " -tmpdir "@
            + self.tmpdir@ + " -prec "@ + nat_str(self.precision as nat) + (match self.cs {
            Some(v) => " -cs "@ + nat_str(v as nat),
            None => Seq::<char>::empty(),
        })
    }

    open spec fn result_prefix(&self) -> Seq<char> {
        "c s exact arb float"@
    }

    fn _name(&self) -> (r: String) {
        String::from_str("SharpSAT-TD")
    }

    fn get_command(&self, timeout_s: u64) -> (r: String) {
        let mut out: Vec<char> = Vec::new();
        push_str_chars(&mut out, "timeout -s KILL ");
        push_u64(&mut out, timeout_s);
        push_str_chars(&mut out, "s ");
        push_str_chars(&mut out, self.path.as_str());
        push_str_chars(&mut out, " -WE -decot ");
        push_usize(&mut out, self.decot);
        push_str_chars(&mut out, " -decow ");
        push_usize(&mut out, self.decow);
        push_str_chars(&mut out, " -tmpdir ");
        push_str_chars(&mut out, self.tmpdir.as_str());
        push_str_chars(&mut out, " -prec ");
        push_usize(&mut out, self.precision);
        match &self.cs {
            Some(v) => {
                push_str_chars(&mut out, " -cs ");
                push_usize(&mut out, *v);
            },
            None => {},
        }
        chars_to_string(&out)
    }

    fn get_tep(&self, stdout: &String) -> (r: Result<Dec, FtError>) {
        let prefix = str_to_chars("c s exact arb float");
        parse_tep(stdout, &prefix)
    }

    fn _set_cache_size(&mut self, new_cs: usize) {
        self.cs = Some(new_cs);
    }
}

/// The GPMC backend: reads the model on standard input.
pub struct GPMCSolver {
    pub path: String,
    pub mode: usize,
    pub prec: usize,
    pub cs: Option<usize>,
}

impl GPMCSolver {
    /// The default settings for the solver found at the path.
    pub fn new(path: &String) -> (r: Self)
        ensures
            r.path@ == path@,
            r.mode == 1,
            r.prec == 15,
            r.cs is None,
    {
        GPMCSolver { path: path.clone(), mode: 1, prec: 15, cs: None }
    }
}

impl Solver for GPMCSolver {
    open spec fn command_spec(&self, timeout_s: u64) -> Seq<char> {
        "timeout -s KILL "@ + nat_str(timeout_s as nat) + "s "@ + self.path@ + " -mode="@
            + nat_str(self.mode as nat) + (match self.cs {
            Some(v) => " -cs="@ + nat_str(v as nat),
            None => Seq::<char>::empty(),
        }) + " -prec="@ + nat_str(self.prec as nat)
    }

    open spec fn result_prefix(&self) -> Seq<char> {
        "c s exact double"@
    }

    fn _name(&self) -> (r: String) {
        String::from_str("GPMC")
    }

    fn get_command(&self, timeout_s: u64) -> (r: String) {
        let mut out: Vec<char> = Vec::new();
        push_str_chars(&mut out, "timeout -s KILL ");
        push_u64(&mut out, timeout_s);
        push_str_chars(&mut out, "s ");
        push_str_chars(&mut out, self.path.as_str());
        push_str_chars(&mut out, " -mode=");
        push_usize(&mut out, self.mode);
        match &self.cs {
            Some(v) => {
                push_str_chars(&mut out, " -cs=");
                push_usize(&mut out, *v);
            },
            None => {},
        }
        push_str_chars(&mut out, " -prec=");
        push_usize(&mut out, self.prec);
        chars_to_string(&out)
    }

    fn get_tep(&self, stdout: &String) -> (r: Result<Dec, FtError>) {
        let prefix = str_to_chars("c s exact double");
        parse_tep(stdout, &prefix)
    }

    fn _set_cache_size(&mut self, new_cs: usize) {
        self.cs = Some(new_cs);
    }
}

/// The DMC backend: file based, fed by the `htb` tree-decomposition tool
/// that lives beside it.
pub struct DMCSolver {
    pub dmc_path: String,
    pub htb_path: String,
    pub tmpdir: String,
}

impl DMCSolver {
    /// Derives the companion tool's path: the trailing `dmc` of the
    /// solver's path is replaced by `htb`.  A path without that suffix is
    /// rejected.
    pub fn new(path: &String) -> (r: Result<Self, FtError>)
        ensures
            r matches Ok(s) ==> {
                &&& s.dmc_path@ == path@
                &&& s.tmpdir@ == ".tmp"@
                &&& path@.len() >= 3 && s.htb_path@ == path@.subrange(0, path@.len() - 3)
                    + "htb"@
            },
            r is Err <==> !(path@.len() >= 3 && path@.subrange(path@.len() - 3, path@.len() as int)
                =~= "dmc"@),
    {
        let chars = str_to_chars(path.as_str());
        let suffix = str_to_chars("dmc");
        let n = chars.len();
        if n < 3 {
            proof {
                reveal_strlit("dmc");
            }
            return Err(FtError::Structure(String::from_str("solver path does not end in dmc")));
        }
        let mut ok = true;
        proof {
            reveal_strlit("dmc");
        }
        if !(chars[n - 3] == 'd' && chars[n - 2] == 'm' && chars[n - 1] == 'c') {
            proof {
                assert(suffix@ == "dmc"@);
                if path@.subrange(path@.len() - 3, path@.len() as int) =~= "dmc"@ {
                    assert(path@[path@.len() - 3] == "dmc"@[0]);
                    assert(path@[path@.len() - 2] == "dmc"@[1]);
                    assert(path@[path@.len() - 1] == "dmc"@[2]);
                }
            }
            return Err(FtError::Structure(String::from_str("solver path does not end in dmc")));
        }
        let mut stem: Vec<char> = Vec::new();
        let mut i: usize = 0;
        while i < n - 3
            invariant
                n == path@.len(),
                chars@ == path@,
                n >= 3,
                i <= n - 3,
                stem@ == path@.subrange(0, i as int),
            decreases n - i,
        {
            stem.push(chars[i]);
            proof {
                assert(path@.subrange(0, i as int).push(path@[i as int]) =~= path@.subrange(
                    0,
                    i + 1,
                ));
            }
            i = i + 1;
        }
        push_str_chars(&mut stem, "htb");
        proof {
            assert(path@.subrange(path@.len() - 3, path@.len() as int) =~= "dmc"@);
        }
        Ok(
            DMCSolver {
                dmc_path: path.clone(),
                htb_path: chars_to_string(&stem),
                tmpdir: String::from_str(".tmp"),
            },
        )
    }

    /// The command line of the companion tree-decomposition tool.
    pub fn htb_command(&self, timeout_s: u64, filepath: &String) -> (r: String)
        ensures
            r@ == "timeout -s kill "@ + nat_str(timeout_s as nat) + " "@ + self.htb_path@
                + " --cf ./"@ + filepath@,
    {
        let mut out: Vec<char> = Vec::new();
        push_str_chars(&mut out, "timeout -s kill ");
        push_u64(&mut out, timeout_s);
        push_str_chars(&mut out, " ");
        push_str_chars(&mut out, self.htb_path.as_str());
        push_str_chars(&mut out, " --cf ./");
        push_str_chars(&mut out, filepath.as_str());
        chars_to_string(&out)
    }
}

impl Solver for DMCSolver {
    open spec fn command_spec(&self, timeout_s: u64) -> Seq<char> {
        "timeout -s KILL "@ + nat_str(timeout_s as nat) + "s "@ + self.dmc_path@
    }

    open spec fn result_prefix(&self) -> Seq<char> {
        "c s exact double"@
    }

    fn _name(&self) -> (r: String) {
        String::from_str("DMC")
    }

    fn get_command(&self, timeout_s: u64) -> (r: String) {
        let mut out: Vec<char> = Vec::new();
        push_str_chars(&mut out, "timeout -s KILL ");
        push_u64(&mut out, timeout_s);
        push_str_chars(&mut out, "s ");
        push_str_chars(&mut out, self.dmc_path.as_str());
        chars_to_string(&out)
    }

    fn get_tep(&self, stdout: &String) -> (r: Result<Dec, FtError>) {
        let prefix = str_to_chars("c s exact double");
        parse_tep(stdout, &prefix)
    }

    fn _set_cache_size(&mut self, new_cs: usize) {
        // the backend has no cache bound to set
    }
}

/// The ADDMC backend: reads the model on standard input.
pub struct ADDMCSolver {
    pub path: String,
}

impl ADDMCSolver {
    /// The solver found at the path, with no further settings.
    pub fn new(path: &String) -> (r: Self)
        ensures
            r.path@ == path@,
    {
        ADDMCSolver { path: path.clone() }
    }
}

impl Solver for ADDMCSolver {
    open spec fn command_spec(&self, timeout_s: u64) -> Seq<char> {
        "timeout -s KILL "@ + nat_str(timeout_s as nat) + "s "@ + self.path@
    }

    open spec fn result_prefix(&self) -> Seq<char> {
        "s wmc"@
    }

    fn _name(&self) -> (r: String) {
        String::from_str("ADDMC")
    }

    fn get_command(&self, timeout_s: u64) -> (r: String) {
        let mut out: Vec<char> = Vec::new();
        push_str_chars(&mut out, "timeout -s KILL ");
        push_u64(&mut out, timeout_s);
        push_str_chars(&mut out, "s ");
        push_str_chars(&mut out, self.path.as_str());
        chars_to_string(&out)
    }

    fn get_tep(&self, stdout: &String) -> (r: Result<Dec, FtError>) {
        let prefix = str_to_chars("s wmc");
        parse_tep(stdout, &prefix)
    }

    fn _set_cache_size(&mut self, new_cs: usize) {
        // the backend has no cache bound to set
    }
}

/// One of the supported backends, picked from the solver's path.
pub enum AnySolver {
    Sharpsat(SharpsatTDSolver),
    Gpmc(GPMCSolver),
    Dmc(DMCSolver),
    Addmc(ADDMCSolver),
}

/// Picks the backend whose name occurs in the path, lowercased; a path
/// naming several backends resolves in this fixed order.
pub fn get_solver_from_path(path: &String) -> (r: Result<AnySolver, FtError>)
    ensures
        ({
            let low = crate::fault_tree_normalizer::lower_spec(path@);
            &&& (contains_sub(low, "sharpsat"@) ==> r is Ok && r->Ok_0 is Sharpsat
                && r->Ok_0->Sharpsat_0.path@ == path@ && r->Ok_0->Sharpsat_0.decot == 2
                && r->Ok_0->Sharpsat_0.decow == 1 && r->Ok_0->Sharpsat_0.tmpdir@ == ".tmp"@
                && r->Ok_0->Sharpsat_0.precision == 20 && r->Ok_0->Sharpsat_0.cs is None)
            &&& ((!contains_sub(low, "sharpsat"@) && contains_sub(low, "addmc"@)) ==> r is Ok
                && r->Ok_0 is Addmc && r->Ok_0->Addmc_0.path@ == path@)
            &&& ((!contains_sub(low, "sharpsat"@) && !contains_sub(low, "addmc"@) && contains_sub(
                low,
                "gpmc"@,
            )) ==> r is Ok && r->Ok_0 is Gpmc && r->Ok_0->Gpmc_0.path@ == path@
                && r->Ok_0->Gpmc_0.mode == 1 && r->Ok_0->Gpmc_0.prec == 15 && r->Ok_0->Gpmc_0.cs
                is None)
            &&& ((!contains_sub(low, "sharpsat"@) && !contains_sub(low, "addmc"@) && !contains_sub(
                low,
                "gpmc"@,
            ) && contains_sub(low, "dmc"@) && r is Ok) ==> r->Ok_0 is Dmc
                && r->Ok_0->Dmc_0.dmc_path@ == path@ && r->Ok_0->Dmc_0.tmpdir@ == ".tmp"@
                && path@.len() >= 3 && r->Ok_0->Dmc_0.htb_path@ == path@.subrange(
                0,
                path@.len() - 3,
            ) + "htb"@)
            &&& ((!contains_sub(low, "sharpsat"@) && !contains_sub(low, "addmc"@) && !contains_sub(
                low,
                "gpmc"@,
            ) && contains_sub(low, "dmc"@)) ==> (r is Err <==> !(path@.len() >= 3
                && path@.subrange(path@.len() - 3, path@.len() as int) =~= "dmc"@)))
            &&& ((!contains_sub(low, "sharpsat"@) && !contains_sub(low, "addmc"@) && !contains_sub(
                low,
                "gpmc"@,
            ) && !contains_sub(low, "dmc"@)) ==> r is Err)
        }),
{
    let chars = str_to_chars(path.as_str());
    let low = crate::fault_tree_normalizer::ascii_lower(&chars);
    if find_sub(&low, &str_to_chars("sharpsat")) {
        Ok(AnySolver::Sharpsat(SharpsatTDSolver::new(path)))
    } else if find_sub(&low, &str_to_chars("addmc")) {
        Ok(AnySolver::Addmc(ADDMCSolver::new(path)))
    } else if find_sub(&low, &str_to_chars("gpmc")) {
        Ok(AnySolver::Gpmc(GPMCSolver::new(path)))
    } else if find_sub(&low, &str_to_chars("dmc")) {
        match DMCSolver::new(path) {
            Ok(s) => Ok(AnySolver::Dmc(s)),
            Err(e) => Err(e),
        }
    } else {
        Err(FtError::Structure(String::from_str("unsupported solver")))
    }
}

/// Appends the decimal digits of `n` to `out`.
pub fn push_u64(out: &mut Vec<char>, n: u64)
    ensures
        final(out)@ == old(out)@ + nat_str(n as nat),
{
    crate::strutil::push_u128(out, n as u128);
}

/// When everything from `p` on is unspaced and a space stands just before
/// `p`, the last token is exactly the suffix from `p`.
proof fn lemma_last_token_eq(s: Seq<char>, p: int)
    requires
        0 <= p <= s.len(),
        p > 0 ==> s[p - 1] == ' ',
        forall|j: int| p <= j < s.len() ==> #[trigger] s[j] != ' ',
    ensures
        last_token(s) == s.subrange(p, s.len() as int),
    decreases s.len() - p,
{
    if p == s.len() {
        if p > 0 {
            assert(s.last() == ' ');
            assert(last_token(s) =~= s.subrange(p, s.len() as int));
        } else {
            assert(s.len() == 0);
            assert(last_token(s) =~= s.subrange(0, 0));
        }
    } else {
        assert(s.last() != ' ');
        lemma_last_token_eq(s.drop_last(), p);
        assert(s.drop_last().subrange(p, s.drop_last().len() as int) =~= s.subrange(
            p,
            s.len() - 1,
        ));
        assert(s.subrange(p, s.len() - 1).push(s.last()) =~= s.subrange(p, s.len() as int));
    }
}

} // verus!

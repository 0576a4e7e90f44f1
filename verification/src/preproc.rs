use vstd::prelude::*;

use crate::strutil::{nat_str, push_usize, push_str_chars, chars_to_string, str_to_chars};
use crate::solver::{lines_spec, split_lines, has_prefix};
use crate::FtError;
use vstd::string::StringExecFns;

verus! {

/// A CNF preprocessor the engine can drive.  The implementation fixes the
/// exact command line; the process itself is run by the embedding program.
pub trait Preprocessor {
    /// The exact command line of the tool.
    spec fn command_spec(&self) -> Seq<char>;

    /// Builds the command line.
    fn command(&self) -> (r: String)
        ensures
            r@ == self.command_spec(),
    ;
}

/// The switches of the PMC preprocessor.
pub struct PMCOptions {
    /// Remove some variables by affine function detection.
    pub affine: bool,
    /// Remove some variables by or-gate detection.
    pub or_gate: bool,
    /// Remove some variables by equivalence detection.
    pub equiv: bool,
    /// Perform the vivification technique.
    pub vivification: bool,
    /// Simplify the problem with respect to the backbone.
    pub lit_implied: bool,
    /// Try to remove as many literals as possible.
    pub eliminate_lit: bool,
    /// Generate a set of clauses to add to the result.
    pub add_clause: bool,
}

/// One `-flag` or `-no-flag` switch.
pub open spec fn flag_text(on: bool, name: Seq<char>) -> Seq<char> {
    if on {
        "-"@ + name
    } else {
        "-no-"@ + name
    }
}

impl PMCOptions {
    /// Options with every switch picked by hand.
    pub fn _new(
        affine: bool,
        or_gate: bool,
        equiv: bool,
        vivification: bool,
        lit_implied: bool,
        eliminate_lit: bool,
        add_clause: bool,
    ) -> (r: Self)
        ensures
            r == (PMCOptions {
                affine,
                or_gate,
                equiv,
                vivification,
                lit_implied,
                eliminate_lit,
                add_clause,
            }),
    {
        PMCOptions { affine, or_gate, equiv, vivification, lit_implied, eliminate_lit, add_clause }
    }

    /// The equivalence-preserving configuration.
    pub fn _eq_configuration() -> (r: Self)
        ensures
            !r.affine && !r.or_gate && !r.equiv && r.vivification && r.lit_implied
                && r.eliminate_lit && !r.add_clause,
    {
        PMCOptions {
            affine: false,
            or_gate: false,
            equiv: false,
            vivification: true,
            lit_implied: true,
            eliminate_lit: true,
            add_clause: false,
        }
    }

    /// The configuration that only preserves the model count.
    pub fn _numeq_configuration() -> (r: Self)
        ensures
            r.affine && r.or_gate && r.equiv && r.vivification && r.lit_implied && r.eliminate_lit
                && !r.add_clause,
    {
        PMCOptions {
            affine: true,
            or_gate: true,
            equiv: true,
            vivification: true,
            lit_implied: true,
            eliminate_lit: true,
            add_clause: false,
        }
    }

    /// The switches the options turn into.
    pub open spec fn cmd_spec(&self) -> Seq<char> {
        flag_text(self.affine, "affine"@) + " "@ + flag_text(self.or_gate, "orGate"@) + " "@
            + flag_text(self.equiv, "equiv"@) + " "@ + flag_text(self.vivification, "vivification"@)
            + " "@ + flag_text(self.lit_implied, "litImplied"@) + " "@ + flag_text(
            self.eliminate_lit,
            "eliminateLit"@,
        ) + " "@ + flag_text(self.add_clause, "addClause"@)
    }

    /// Renders the switches.
    pub fn to_cmd(&self) -> (r: String)
        ensures
            r@ == self.cmd_spec(),
    {
        let mut out: Vec<char> = Vec::new();
        push_flag(&mut out, self.affine, "affine");
        push_str_chars(&mut out, " ");
        push_flag(&mut out, self.or_gate, "orGate");
        push_str_chars(&mut out, " ");
        push_flag(&mut out, self.equiv, "equiv");
        push_str_chars(&mut out, " ");
        push_flag(&mut out, self.vivification, "vivification");
        push_str_chars(&mut out, " ");
        push_flag(&mut out, self.lit_implied, "litImplied");
        push_str_chars(&mut out, " ");
        push_flag(&mut out, self.eliminate_lit, "eliminateLit");
        push_str_chars(&mut out, " ");
        push_flag(&mut out, self.add_clause, "addClause");
        proof {
            assert(out@ =~= self.cmd_spec());
        }
        chars_to_string(&out)
    }
}

/// Appends one `-flag` or `-no-flag` switch.
fn push_flag(out: &mut Vec<char>, on: bool, name: &str)
    ensures
        final(out)@ == old(out)@ + flag_text(on, name@),
{
    if on {
        push_str_chars(out, "-");
    } else {
        push_str_chars(out, "-no-");
    }
    push_str_chars(out, name);
}

/// The PMC preprocessor.
pub struct PMC {
    /// Path to the tool.
    pub path: String,
    /// Use the Luby restart sequence.
    pub luby_restart: bool,
    /// Randomize the initial activity.
    pub rnd_init: bool,
    /// How often the preprocessing is iterated.
    pub iterations: usize,
    pub options: PMCOptions,
}

impl PMC {
    /// The default settings for the tool found at the path.
    pub fn new(path: &String) -> (r: Self)
        ensures
            r.path@ == path@,
            r.luby_restart,
            !r.rnd_init,
            r.iterations == 10,
            !r.options.affine && !r.options.or_gate && !r.options.equiv && r.options.vivification
                && r.options.lit_implied && r.options.eliminate_lit && !r.options.add_clause,
    {
        PMC {
            path: path.clone(),
            luby_restart: true,
            rnd_init: false,
            iterations: 10,
            options: PMCOptions::_eq_configuration(),
        }
    }
}

impl Preprocessor for PMC {
    open spec fn command_spec(&self) -> Seq<char> {
        "./"@ + self.path@ + " -iterate="@ + nat_str(self.iterations as nat) + " "@ + (if self
            .luby_restart {
            "-luby"@
        } else {
            "-no-luby"@
        }) + " "@ + (if self.rnd_init {
            "-rnd-init"@
        } else {
            "-no-rnd-init"@
        }) + " "@ + self.options.cmd_spec()
    }

    fn command(&self) -> (r: String) {
        let mut out: Vec<char> = Vec::new();
        push_str_chars(&mut out, "./");
        push_str_chars(&mut out, self.path.as_str());
        push_str_chars(&mut out, " -iterate=");
        push_usize(&mut out, self.iterations);
        push_str_chars(&mut out, " ");
        if self.luby_restart {
            push_str_chars(&mut out, "-luby");
        } else {
            push_str_chars(&mut out, "-no-luby");
        }
        push_str_chars(&mut out, " ");
        if self.rnd_init {
            push_str_chars(&mut out, "-rnd-init");
        } else {
            push_str_chars(&mut out, "-no-rnd-init");
        }
        push_str_chars(&mut out, " ");
        let opts = self.options.to_cmd();
        push_str_chars(&mut out, opts.as_str());
        proof {
            assert(out@ =~= self.command_spec());
        }
        chars_to_string(&out)
    }
}

/// The B+E preprocessor.
pub struct BPlusE {
    /// Path to the tool.
    pub path: String,
    /// Use the Luby restart sequence.
    pub luby_restart: bool,
    /// Randomize the initial activity.
    pub rnd_init: bool,
    /// Limit on the solver used for definability; zero means none.
    pub lim_solver: i32,
    /// Limit on the number of authorized resolutions.
    pub max_num_res: i32,
}

impl BPlusE {
    /// The default settings for the tool found at the path.
    pub fn new(path: &String) -> (r: Self)
        ensures
            r.path@ == path@,
            r.luby_restart,
            !r.rnd_init,
            r.lim_solver == 0,
            r.max_num_res == 500,
    {
        BPlusE {
            path: path.clone(),
            luby_restart: true,
            rnd_init: false,
            lim_solver: 0,
            max_num_res: 500,
        }
    }
}

/// The decimal text of a signed value.
pub open spec fn int_str(i: int) -> Seq<char> {
    if i < 0 {
        seq!['-'] + nat_str((-i) as nat)
    } else {
        nat_str(i as nat)
    }
}

/// Appends the decimal text of a signed value.
fn push_i32(out: &mut Vec<char>, n: i32)
    ensures
        final(out)@ == old(out)@ + int_str(n as int),
{
    let wide: i64 = n as i64;
    if wide < 0 {
        out.push('-');
        crate::strutil::push_u128(out, (-wide) as u128);
        proof {
            assert(old(out)@ + (seq!['-'] + nat_str((-wide) as nat)) =~= (old(out)@.push('-'))
                + nat_str((-wide) as nat));
        }
    } else {
        crate::strutil::push_u128(out, wide as u128);
    }
}

impl Preprocessor for BPlusE {
    open spec fn command_spec(&self) -> Seq<char> {
        "./"@ + self.path@ + " "@ + (if self.luby_restart {
            "-luby"@
        } else {
            "-no-luby"@
        }) + " "@ + (if self.rnd_init {
            "-rnd-init"@
        } else {
            "-no-rnd-init"@
        }) + " -limSolver="@ + int_str(self.lim_solver as int) + " -max#Res="@ + int_str(
            self.max_num_res as int,
        )
    }

    fn command(&self) -> (r: String) {
        let mut out: Vec<char> = Vec::new();
        push_str_chars(&mut out, "./");
        push_str_chars(&mut out, self.path.as_str());
        push_str_chars(&mut out, " ");
        if self.luby_restart {
            push_str_chars(&mut out, "-luby");
        } else {
            push_str_chars(&mut out, "-no-luby");
        }
        push_str_chars(&mut out, " ");
        if self.rnd_init {
            push_str_chars(&mut out, "-rnd-init");
        } else {
            push_str_chars(&mut out, "-no-rnd-init");
        }
        push_str_chars(&mut out, " -limSolver=");
        push_i32(&mut out, self.lim_solver);
        push_str_chars(&mut out, " -max#Res=");
        push_i32(&mut out, self.max_num_res);
        proof {
            assert(out@ =~= self.command_spec());
        }
        chars_to_string(&out)
    }
}

/// One of the supported preprocessors, picked from the tool's path.
pub enum AnyPreprocessor {
    Pmc(PMC),
    BpE(BPlusE),
}

/// Picks the tool whose name occurs in the path, lowercased.
pub fn get_preprocessor_from_path(path: &String) -> (r: Result<AnyPreprocessor, FtError>)
    ensures
        ({
            let low = crate::fault_tree_normalizer::lower_spec(path@);
            &&& (crate::solver::contains_sub(low, "preproc"@) ==> r is Ok && r->Ok_0 is Pmc
                && r->Ok_0->Pmc_0.path@ == path@ && r->Ok_0->Pmc_0.luby_restart
                && !r->Ok_0->Pmc_0.rnd_init && r->Ok_0->Pmc_0.iterations == 10
                && !r->Ok_0->Pmc_0.options.affine && !r->Ok_0->Pmc_0.options.or_gate
                && !r->Ok_0->Pmc_0.options.equiv && r->Ok_0->Pmc_0.options.vivification
                && r->Ok_0->Pmc_0.options.lit_implied && r->Ok_0->Pmc_0.options.eliminate_lit
                && !r->Ok_0->Pmc_0.options.add_clause)
            &&& ((!crate::solver::contains_sub(low, "preproc"@) && crate::solver::contains_sub(
                low,
                "b+e"@,
            )) ==> r is Ok && r->Ok_0 is BpE && r->Ok_0->BpE_0.path@ == path@
                && r->Ok_0->BpE_0.luby_restart && !r->Ok_0->BpE_0.rnd_init
                && r->Ok_0->BpE_0.lim_solver == 0 && r->Ok_0->BpE_0.max_num_res == 500)
            &&& (r is Err <==> !crate::solver::contains_sub(low, "preproc"@)
                && !crate::solver::contains_sub(low, "b+e"@))
        }),
{
    let chars = str_to_chars(path.as_str());
    let low = crate::fault_tree_normalizer::ascii_lower(&chars);
    if crate::solver::find_sub(&low, &str_to_chars("preproc")) {
        Ok(AnyPreprocessor::Pmc(PMC::new(path)))
    } else if crate::solver::find_sub(&low, &str_to_chars("b+e")) {
        Ok(AnyPreprocessor::BpE(BPlusE::new(path)))
    } else {
        Err(FtError::Structure(String::from_str("unsupported preprocessor")))
    }
}

/// The text with every occurrence of the tool's bare `Reading` banner
/// turned into a comment line, scanning left to right.
pub open spec fn commented_banners(s: Seq<char>) -> Seq<char>
    decreases s.len(),
{
    if s.len() == 0 {
        Seq::empty()
    } else if s.len() >= 7 && s.subrange(0, 7) == "Reading"@ {
        "c Reading"@ + commented_banners(s.skip(7))
    } else {
        seq![s[0]] + commented_banners(s.drop_first())
    }
}

/// Comments out the `Reading` banners the B+E tool prints among the CNF
/// lines, so a solver can read the output.
pub fn sanitize_bpe_output(s: &String) -> (r: String)
    ensures
        r@ == commented_banners(s@),
{
    let chars = str_to_chars(s.as_str());
    let pat = str_to_chars("Reading");
    let n = chars.len();
    let mut out: Vec<char> = Vec::new();
    let mut i: usize = 0;
    proof {
        reveal_strlit("Reading");
        reveal_strlit("c Reading");
        assert(chars@.skip(0) =~= chars@);
    }
    while i < n
        invariant
            i <= n,
            n == chars@.len(),
            pat@ == "Reading"@,
            pat@.len() == 7,
            commented_banners(chars@) == out@ + commented_banners(chars@.skip(i as int)),
        decreases n - i,
    {
        let ghost rest = chars@.skip(i as int);
        let mut matches_here = n - i >= 7;
        if matches_here {
            let mut j: usize = 0;
            while j < 7 && matches_here
                invariant
                    i + 7 <= n,
                    n == chars@.len(),
                    pat@.len() == 7,
                    j <= 7,
                    matches_here ==> forall|k: int| 0 <= k < j ==> chars@[i + k] == pat@[k],
                    !matches_here ==> exists|k: int|
                        0 <= k < 7 && chars@[i + k] != #[trigger] pat@[k],
                decreases 7 - j + (if matches_here {
                    1int
                } else {
                    0int
                }),
            {
                if chars[i + j] != pat[j] {
                    matches_here = false;
                } else {
                    j = j + 1;
                }
            }
        }
        proof {
            assert(rest.len() == n - i);
            if matches_here {
                assert(rest.subrange(0, 7) =~= "Reading"@) by {
                    assert forall|k: int| 0 <= k < 7 implies rest.subrange(0, 7)[k] == "Reading"@[
                    k] by {
                        assert(rest[k] == chars@[i + k]);
                        assert(chars@[i + k] == pat@[k]);
                    }
                }
                assert(rest.skip(7) =~= chars@.skip(i + 7));
                assert(commented_banners(rest) == "c Reading"@ + commented_banners(
                    chars@.skip(i + 7),
                ));
            } else {
                if rest.len() >= 7 && rest.subrange(0, 7) == "Reading"@ {
                    let k = choose|k: int| 0 <= k < 7 && chars@[i + k] != #[trigger] pat@[k];
                    assert(rest.subrange(0, 7)[k] == chars@[i + k]);
                    assert(false);
                }
                assert(rest.drop_first() =~= chars@.skip(i + 1));
                assert(commented_banners(rest) == seq![rest[0]] + commented_banners(
                    chars@.skip(i + 1),
                ));
            }
        }
        if matches_here {
            push_str_chars(&mut out, "c Reading");
            i = i + 7;
        } else {
            out.push(chars[i]);
            i = i + 1;
        }
    }
    proof {
        assert(chars@.skip(n as int) =~= Seq::<char>::empty());
    }
    chars_to_string(&out)
}

/// Whether the preprocessor's output says the formula was solved outright,
/// in which case the original model must be kept.
pub open spec fn solved_outright(out: Seq<char>) -> bool {
    exists|i: int|
        0 <= i < lines_spec(out).len() && "c Solved by preprocessing"@.is_prefix_of(
            #[trigger] lines_spec(out)[i],
        )
}

/// Chooses between the preprocessor's output and the original model: the
/// output is kept unless it announces the formula as solved outright.
pub fn accept_preprocessed(original: &String, processed: &String) -> (r: String)
    ensures
        solved_outright(processed@) ==> r@ == original@,
        !solved_outright(processed@) ==> r@ == processed@,
{
    let chars = str_to_chars(processed.as_str());
    let ls = split_lines(&chars);
    let marker = str_to_chars("c Solved by preprocessing");
    let mut i: usize = 0;
    while i < ls.len()
        invariant
            i <= ls@.len(),
            ls@.len() == lines_spec(processed@).len(),
            marker@ == "c Solved by preprocessing"@,
            forall|j: int| 0 <= j < ls@.len() ==> #[trigger] ls@[j]@ == lines_spec(processed@)[j],
            forall|j: int|
                0 <= j < i ==> !"c Solved by preprocessing"@.is_prefix_of(
                    #[trigger] lines_spec(processed@)[j],
                ),
        decreases ls@.len() - i,
    {
        if has_prefix(&ls[i], &marker) {
            return original.clone();
        }
        i = i + 1;
    }
    processed.clone()
}

} // verus!

use coyan_fta::dec::{Dec, dec_to_string, parse_dec, dec_complement, dec_div, dec_one};
use coyan_fta::fault_tree::FaultTree;
use coyan_fta::formula::CNFFormat;
use coyan_fta::modularizer::get_modules;
use coyan_fta::solver::{
    classify_stderr, finalize_tep, importance_from, solver_shortcut, tmp_file_path,
    AnySolver, chunk_size, get_solver_from_path, Solver, SharpsatTDSolver, GPMCSolver, DMCSolver,
    ADDMCSolver, SolverOutcome,
};
use coyan_fta::preproc::{accept_preprocessed, get_preprocessor_from_path, AnyPreprocessor, PMC,
    BPlusE, Preprocessor, PMCOptions};
use coyan_fta::FtError;
use coyan_fta::formula::Formula;
use coyan_fta::preproc::sanitize_bpe_output;

fn lines(v: &[&str]) -> Vec<String> {
    v.iter().map(|s| s.to_string()).collect()
}

fn dec_of(s: &str) -> Dec {
    parse_dec(&s.chars().collect()).expect("decimal")
}

/// A reference weighted model counter over the emitted DIMACS text.
fn brute_wmc(text: &str) -> f64 {
    let mut nvars = 0usize;
    let mut clauses: Vec<Vec<i64>> = Vec::new();
    let mut wpos: Vec<f64> = Vec::new();
    let mut wneg: Vec<f64> = Vec::new();
    for line in text.lines() {
        let toks: Vec<&str> = line.split_whitespace().collect();
        if toks.is_empty() {
            continue;
        }
        if toks[0] == "p" {
            nvars = toks[2].parse().unwrap();
            wpos = vec![1.0; nvars + 1];
            wneg = vec![1.0; nvars + 1];
        } else if toks[0] == "c" {
            assert_eq!(toks[1], "p");
            assert_eq!(toks[2], "weight");
            let lit: i64 = toks[3].parse().unwrap();
            let w: f64 = toks[4].parse().unwrap();
            if lit > 0 {
                wpos[lit as usize] = w;
            } else {
                wneg[(-lit) as usize] = w;
            }
        } else if toks[0] == "w" {
            let lit: i64 = toks[1].parse().unwrap();
            let w: f64 = toks[2].parse().unwrap();
            if lit > 0 {
                wpos[lit as usize] = w;
            } else {
                wneg[(-lit) as usize] = w;
            }
        } else {
            let mut cl: Vec<i64> = toks.iter().map(|t| t.parse().unwrap()).collect();
            assert_eq!(cl.pop(), Some(0));
            clauses.push(cl);
        }
    }
    let mut total = 0.0f64;
    for m in 0u64..(1u64 << nvars) {
        let val = |lit: i64| -> bool {
            let v = lit.unsigned_abs() as usize;
            let b = (m >> (v - 1)) & 1 == 1;
            if lit > 0 { b } else { !b }
        };
        if clauses.iter().all(|cl| cl.iter().any(|&l| val(l))) {
            let mut w = 1.0;
            for v in 1..=nvars {
                w *= if (m >> (v - 1)) & 1 == 1 { wpos[v] } else { wneg[v] };
            }
            total += w;
        }
    }
    total
}

fn tep_of(src: &[&str], simplify: bool, negate_or: bool) -> f64 {
    let ft = FaultTree::new_from_lines(&lines(src), simplify, negate_or).expect("parse");
    let text = ft.dump_cnf(&CNFFormat::MC21, &dec_of("1.0"), false);
    let wmc = brute_wmc(&text);
    if negate_or { 1.0 - wmc } else { wmc }
}

const EPS: f64 = 1e-12;

#[test]
fn and() {
    let t = tep_of(
        &[
            "toplevel root;",
            "root and x1 x2 x3;",
            "x1 prob=0.25;",
            "x2 prob=0.35;",
            "x3 prob=0.45;",
        ],
        true,
        false,
    );
    assert!((t - 0.25 * 0.35 * 0.45).abs() < EPS);
}

#[test]
fn or() {
    let t = tep_of(
        &[
            "toplevel root;",
            "root or x1 x2 x3;",
            "x1 prob=0.25;",
            "x2 prob=0.35;",
            "x3 prob=0.45;",
        ],
        true,
        false,
    );
    assert!((t - (1.0 - 0.75 * 0.65 * 0.55)).abs() < EPS);
}

#[test]
fn not() {
    let t = tep_of(
        &["toplevel root;", "root not x;", "x prob=0.25;"],
        true,
        false,
    );
    assert!((t - 0.75).abs() < EPS);
}

#[test]
fn xor() {
    let t = tep_of(
        &["toplevel root;", "root xor x1 x2;", "x1 prob=0.5;", "x2 prob=0.5;"],
        true,
        false,
    );
    assert!((t - 0.5).abs() < EPS);
}

#[test]
fn vot() {
    let t = tep_of(
        &[
            "toplevel root;",
            "root 3of5 x1 x2 x3 x4 x5;",
            "x1 prob=0.3;",
            "x2 prob=0.3;",
            "x3 prob=0.3;",
            "x4 prob=0.3;",
            "x5 prob=0.3;",
        ],
        true,
        false,
    );
    // the sum over at least three of five failing
    let mut expect = 0.0;
    for k in 3..=5u32 {
        let c = match k {
            3 => 10.0,
            4 => 5.0,
            _ => 1.0,
        };
        expect += c * 0.3f64.powi(k as i32) * 0.7f64.powi((5 - k) as i32);
    }
    assert!((t - expect).abs() < EPS);
    assert!((t - 0.16308).abs() < 1e-9);
}

#[test]
fn or_root_negation_round_trip() {
    let src = [
        "toplevel root;",
        "root or x1 x2 x3;",
        "x1 prob=0.25;",
        "x2 prob=0.35;",
        "x3 prob=0.45;",
    ];
    let plain = tep_of(&src, true, false);
    let negated = tep_of(&src, true, true);
    assert!((plain - negated).abs() < EPS);
    // the driver's final step over exact decimals
    let ft = FaultTree::new_from_lines(&lines(&src), true, true).expect("parse");
    let wmc = dec_of("0.268125");
    let tep = finalize_tep(&ft, true, &wmc);
    assert_eq!(dec_to_string(&tep), "0.731875");
}

#[test]
fn simplify_round_trip() {
    let src = [
        "toplevel t;",
        "t and g1 x2;",
        "g1 or x1;",
        "x1 prob=0.25;",
        "x2 prob=0.5;",
    ];
    let with = tep_of(&src, true, false);
    let without = tep_of(&src, false, false);
    assert!((with - without).abs() < EPS);
    assert!((with - 0.125).abs() < EPS);
}

#[test]
fn modularization_regression() {
    let src = [
        "toplevel t;",
        "t and g1 g2;",
        "g1 or a b;",
        "g2 or c d;",
        "a prob=0.1;",
        "b prob=0.2;",
        "c prob=0.3;",
        "d prob=0.4;",
    ];
    let ft = FaultTree::new_from_lines(&lines(&src), true, false).expect("parse");
    let modules = get_modules(&ft).expect("modules");
    assert_eq!(modules.len(), 2);
}

#[test]
fn modularization_preserves_tep() {
    let src = [
        "toplevel t;",
        "t and g1 g2;",
        "g1 or a b;",
        "g2 or c d;",
        "a prob=0.1;",
        "b prob=0.2;",
        "c prob=0.3;",
        "d prob=0.4;",
    ];
    let direct = tep_of(&src, true, false);
    let mut ft = FaultTree::new_from_lines(&lines(&src), true, false).expect("parse");
    let mut modules = get_modules(&ft).expect("modules");
    modules.reverse();
    for mid in modules {
        let sub = ft.subtree_with_root(mid).expect("subtree");
        let text = sub.dump_cnf(&CNFFormat::MC21, &dec_of("1.0"), false);
        let p = brute_wmc(&text);
        let ptxt = format!("{:.12}", p);
        ft.replace_one_module(mid, dec_of(&ptxt));
    }
    let text = ft.dump_cnf(&CNFFormat::MC21, &dec_of("1.0"), false);
    let combined = brute_wmc(&text);
    assert!((direct - combined).abs() < 1e-9);
}

#[test]
fn modularization_idempotent() {
    let src = [
        "toplevel t;",
        "t and g1 g2;",
        "g1 or a b;",
        "g2 or c d;",
        "a prob=0.1;",
        "b prob=0.2;",
        "c prob=0.3;",
        "d prob=0.4;",
    ];
    let mut ft = FaultTree::new_from_lines(&lines(&src), true, false).expect("parse");
    let mut modules = get_modules(&ft).expect("modules");
    modules.reverse();
    for mid in modules {
        ft.replace_one_module(mid, dec_of("0.5"));
    }
    let again = get_modules(&ft).expect("modules");
    assert_eq!(again.len(), 0);
}

#[test]
fn info_counts() {
    let src = [
        "toplevel root;",
        "root and x1 x2 x3;",
        "x1 prob=0.25;",
        "x2 prob=0.35;",
        "x3 prob=0.45;",
    ];
    let ft = FaultTree::new_from_lines(&lines(&src), true, false).expect("parse");
    let (nbe, ngates, ncl) = ft.get_info();
    assert_eq!(nbe, 3);
    assert_eq!(ngates, 1);
    // the root unit clause, one clause per child, and the closing clause
    assert_eq!(ncl, 5);
}

#[test]
fn parse_rejects_duplicate_gate() {
    let r = FaultTree::new_from_lines(
        &lines(&["toplevel t;", "t and a b;", "t or a b;", "a prob=0.1;", "b prob=0.1;"]),
        true,
        false,
    );
    assert!(matches!(r, Err(FtError::Parse(_))));
}

#[test]
fn parse_rejects_dynamic_gates() {
    let r = FaultTree::new_from_lines(
        &lines(&["toplevel t;", "t pand a b;", "a prob=0.1;", "b prob=0.1;"]),
        true,
        false,
    );
    assert!(matches!(r, Err(FtError::Parse(_))));
}

#[test]
fn parse_rejects_unresolved_argument() {
    let r = FaultTree::new_from_lines(
        &lines(&["toplevel t;", "t and a ghost;", "a prob=0.1;"]),
        false,
        false,
    );
    assert!(matches!(r, Err(FtError::Structure(_))));
}

#[test]
fn parse_rejects_bad_voting_bounds() {
    let r = FaultTree::new_from_lines(
        &lines(&["toplevel t;", "t 4of3 a b c;", "a prob=0.1;", "b prob=0.1;", "c prob=0.1;"]),
        false,
        false,
    );
    assert!(matches!(r, Err(FtError::Structure(_))));
}

#[test]
fn parse_rejects_probability_out_of_range() {
    let r = FaultTree::new_from_lines(
        &lines(&["toplevel t;", "t and a b;", "a prob=1.5;", "b prob=0.1;"]),
        false,
        false,
    );
    assert!(matches!(r, Err(FtError::Parse(_))));
}

#[test]
fn parse_rejects_rewrite_cycle() {
    let r = FaultTree::new_from_lines(
        &lines(&["toplevel t;", "t and u v;", "u or v;", "v or u;"]),
        true,
        false,
    );
    assert!(matches!(r, Err(FtError::Structure(_))));
}

#[test]
fn parse_rejects_malformed_number() {
    let r = FaultTree::new_from_lines(
        &lines(&["toplevel t;", "t and a b;", "a prob=zebra;", "b prob=0.1;"]),
        false,
        false,
    );
    assert!(matches!(r, Err(FtError::Parse(_))));
}

#[test]
fn decimal_parse_and_render() {
    assert_eq!(dec_to_string(&dec_of("0.25")), "0.25");
    assert_eq!(dec_to_string(&dec_of("2.5e-3")), "0.0025");
    assert_eq!(dec_to_string(&dec_of("1e3")), "1000");
    assert_eq!(dec_to_string(&dec_of("5.")), "5");
    assert_eq!(dec_to_string(&dec_of(".5")), "0.5");
    assert_eq!(dec_to_string(&dec_of("-0.75")), "-0.75");
    assert!(parse_dec(&"abc".chars().collect::<Vec<char>>()).is_none());
    assert!(parse_dec(&"1e".chars().collect::<Vec<char>>()).is_none());
    assert!(parse_dec(&"1.2.3".chars().collect::<Vec<char>>()).is_none());
}

#[test]
fn decimal_complement_and_division() {
    let c = dec_complement(&dec_of("0.25"));
    assert_eq!(dec_to_string(&c), "0.75");
    let q = dec_div(&dec_of("0.3"), &dec_of("0.5"), 4).expect("divide");
    assert_eq!(dec_to_string(&q), "0.6000");
    let one = dec_one();
    let third = dec_div(&one, &dec_of("3"), 6).expect("divide");
    assert_eq!(dec_to_string(&third), "0.333333");
}

#[test]
fn importance_measures_from_solver_results() {
    let r = importance_from(&dec_of("0.5"), &dec_of("0.8"), &dec_of("0.2"), &dec_of("0.25"))
        .expect("importance");
    assert_eq!(dec_to_string(&r.0), "0.6");
    assert_eq!(dec_to_string(&r.1), "0.3");
    assert_eq!(dec_to_string(&r.2), "0.300000000000000");
}

#[test]
fn importance_rejects_zero_baseline() {
    let r = importance_from(&dec_of("0"), &dec_of("0.8"), &dec_of("0.2"), &dec_of("0.25"));
    assert!(r.is_none());
}

#[test]
fn solver_commands() {
    let s = SharpsatTDSolver::new(&"solvers/sharpsat".to_string());
    assert_eq!(
        s.get_command(300),
        "timeout -s KILL 300s solvers/sharpsat -WE -decot 2 -decow 1 -tmpdir .tmp -prec 20"
    );
    let mut g = GPMCSolver::new(&"solvers/gpmc".to_string());
    assert_eq!(g.get_command(100), "timeout -s KILL 100s solvers/gpmc -mode=1 -prec=15");
    g._set_cache_size(4000);
    assert_eq!(g.get_command(100), "timeout -s KILL 100s solvers/gpmc -mode=1 -cs=4000 -prec=15");
    let a = ADDMCSolver::new(&"solvers/addmc".to_string());
    assert_eq!(a.get_command(7), "timeout -s KILL 7s solvers/addmc");
    let d = DMCSolver::new(&"solvers/dmc".to_string()).expect("dmc");
    assert_eq!(d.htb_path, "solvers/htb");
    assert!(DMCSolver::new(&"solvers/gpmc".to_string()).is_err());
}

#[test]
fn solver_dispatch() {
    assert!(matches!(
        get_solver_from_path(&"tools/SharpSAT-td".to_string()),
        Ok(AnySolver::Sharpsat(_))
    ));
    assert!(matches!(get_solver_from_path(&"tools/addmc".to_string()), Ok(AnySolver::Addmc(_))));
    assert!(matches!(get_solver_from_path(&"tools/gpmc".to_string()), Ok(AnySolver::Gpmc(_))));
    assert!(matches!(get_solver_from_path(&"tools/dmc".to_string()), Ok(AnySolver::Dmc(_))));
    assert!(get_solver_from_path(&"tools/minisat".to_string()).is_err());
}

#[test]
fn solver_output_parsing() {
    let s = GPMCSolver::new(&"gpmc".to_string());
    let out = "c o warmup\nc s exact double 0.039375\n".to_string();
    let tep = s.get_tep(&out).expect("tep");
    assert_eq!(dec_to_string(&tep), "0.039375");
    let sharp = SharpsatTDSolver::new(&"sharpsat".to_string());
    let out2 = "c s exact arb float 7.318750e-01\n".to_string();
    let tep2 = sharp.get_tep(&out2).expect("tep");
    assert_eq!(dec_to_string(&tep2), "0.7318750");
    let bad = "no result here".to_string();
    assert!(sharp.get_tep(&bad).is_err());
}

#[test]
fn stderr_classification() {
    assert!(matches!(classify_stderr(&"".to_string()), SolverOutcome::CleanRun));
    assert!(matches!(classify_stderr(&"Killed\n".to_string()), SolverOutcome::TimedOut));
    assert!(matches!(classify_stderr(&"segfault".to_string()), SolverOutcome::Failed));
}

#[test]
fn shortcut_for_basic_event_root() {
    let src = ["toplevel x;", "x prob=0.25;"];
    let ft = FaultTree::new_from_lines(&lines(&src), true, false).expect("parse");
    let p = solver_shortcut(&ft, &dec_of("1.0"), false).expect("shortcut");
    assert_eq!(dec_to_string(&p), "0.25");
}

#[test]
fn chunking_rule() {
    assert_eq!(chunk_size(10, 4), 4);
    assert_eq!(chunk_size(100, 4), 25);
    assert_eq!(chunk_size(0, 3), 3);
    assert_eq!(chunk_size(7, 2), 4);
}

#[test]
fn temporary_paths() {
    let p = tmp_file_path(&".tmp".to_string());
    assert_eq!(p.len(), ".tmp".len() + 6);
    assert!(p.starts_with(".tmp/"));
}

#[test]
fn preprocessor_commands() {
    let p = PMC::new(&"preproc".to_string());
    assert_eq!(
        p.command(),
        "./preproc -iterate=10 -luby -no-rnd-init -no-affine -no-orGate -no-equiv -vivification -litImplied -eliminateLit -no-addClause"
    );
    let b = BPlusE::new(&"B+E_linux".to_string());
    assert_eq!(b.command(), "./B+E_linux -luby -no-rnd-init -limSolver=0 -max#Res=500");
    let opts = PMCOptions::_numeq_configuration();
    assert_eq!(
        opts.to_cmd(),
        "-affine -orGate -equiv -vivification -litImplied -eliminateLit -no-addClause"
    );
}

#[test]
fn preprocessor_dispatch_and_acceptance() {
    assert!(matches!(
        get_preprocessor_from_path(&"tools/preproc_linux".to_string()),
        Ok(AnyPreprocessor::Pmc(_))
    ));
    assert!(matches!(
        get_preprocessor_from_path(&"tools/B+E_linux".to_string()),
        Ok(AnyPreprocessor::BpE(_))
    ));
    assert!(get_preprocessor_from_path(&"tools/other".to_string()).is_err());
    let original = "p cnf 1 1\n1 0\n".to_string();
    let solved = "c Solved by preprocessing\n".to_string();
    assert_eq!(accept_preprocessed(&original, &solved), original);
    let worked = "p cnf 1 1\n-1 0\n".to_string();
    assert_eq!(accept_preprocessed(&original, &worked), worked);
}

#[test]
fn continuous_events_have_no_exact_weight() {
    let src = ["toplevel t;", "t and a b;", "a prob=0.1;", "b lambda=0.001;"];
    let ft = FaultTree::new_from_lines(&lines(&src), true, false).expect("parse");
    // the exact encoder only covers discrete trees; the root shortcut sees it
    assert!(solver_shortcut(&ft, &dec_of("1.0"), false).is_none());
}

#[test]
fn subtree_extraction_keeps_structure() {
    let src = [
        "toplevel t;",
        "t and g1 g2;",
        "g1 or a b;",
        "g2 or c d;",
        "a prob=0.1;",
        "b prob=0.2;",
        "c prob=0.3;",
        "d prob=0.4;",
    ];
    let ft = FaultTree::new_from_lines(&lines(&src), true, false).expect("parse");
    let modules = get_modules(&ft).expect("modules");
    let sub = ft.subtree_with_root(modules[0]).expect("subtree");
    let text = sub.dump_cnf(&CNFFormat::MC21, &dec_of("1.0"), false);
    let p = brute_wmc(&text);
    // one of the two OR modules: either 1-(0.9*0.8) or 1-(0.7*0.6)
    assert!((p - 0.28).abs() < EPS || (p - 0.58).abs() < EPS);
}

#[test]
fn formula_rendering() {
    let f = Formula::And(vec![
        Formula::Atom(0),
        Formula::Or(vec![Formula::Atom(1), Formula::Not(Box::new(Formula::Atom(2)))]),
    ]);
    assert_eq!(f.to_text(), "(1 ∧ (2 V -3))");
    assert_eq!(f.formula_to_dft(), "and 1 or 2 -3");
    assert_eq!(f.num_clauses(), Some(2));
    let v = Formula::Vot(3, vec![Formula::Atom(0), Formula::Atom(1)]);
    assert_eq!(v.formula_to_dft(), "3of2 1 2");
}

#[test]
fn formula_negation() {
    let f = Formula::Or(vec![Formula::Atom(0), Formula::Atom(1)]);
    assert_eq!(f.negate().to_text(), "(-1 ∧ -2)");
    let x = Formula::Xor(vec![Formula::Atom(0), Formula::Atom(1)]);
    assert_eq!(x.negate().to_text(), "((1 ∧ 2) V (-1 ∧ -2))");
    let lit = Formula::Not(Box::new(Formula::Atom(4)));
    assert_eq!(lit.negate().to_text(), "5");
}

#[test]
fn bpe_output_sanitizing() {
    let out = "Reading the model\np cnf 1 1\n1 0\n".to_string();
    assert_eq!(sanitize_bpe_output(&out), "c Reading the model\np cnf 1 1\n1 0\n");
    let clean = "p cnf 1 1\n1 0\n".to_string();
    assert_eq!(sanitize_bpe_output(&clean), clean);
}

#[test]
fn tep_above_one_rejected() {
    let s = GPMCSolver::new(&"gpmc".to_string());
    let out = "c s exact double 1.5\n".to_string();
    assert!(s.get_tep(&out).is_err());
    let exact_one = s.get_tep(&"c s exact double 1.0\n".to_string()).expect("tep");
    assert_eq!(dec_to_string(&exact_one), "1.0");
}

#[test]
fn single_child_root_capture() {
    let src = [
        "toplevel root;",
        "root and inner;",
        "inner or x1 x2;",
        "x1 prob=0.25;",
        "x2 prob=0.5;",
    ];
    let ft = FaultTree::new_from_lines(&lines(&src), true, false).expect("parse");
    let text = ft.dump_cnf(&CNFFormat::MC21, &dec_of("1.0"), false);
    let wmc = brute_wmc(&text);
    assert!((wmc - 0.625).abs() < EPS);
}

#[test]
fn chained_root_rewrite() {
    let src = [
        "toplevel g;",
        "h or k;",
        "g or h;",
        "k prob=0.25;",
    ];
    let ft = FaultTree::new_from_lines(&lines(&src), true, false).expect("parse");
    let text = ft.dump_cnf(&CNFFormat::MC21, &dec_of("1.0"), false);
    let wmc = brute_wmc(&text);
    assert!((wmc - 0.25).abs() < EPS);
}

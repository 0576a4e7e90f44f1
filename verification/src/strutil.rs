use vstd::prelude::*;

verus! {

/// The decimal digit character for a value below ten.
pub open spec fn digit_char(d: nat) -> char {
    if d == 0 {
        '0'
    } else if d == 1 {
        '1'
    } else if d == 2 {
        '2'
    } else if d == 3 {
        '3'
    } else if d == 4 {
        '4'
    } else if d == 5 {
        '5'
    } else if d == 6 {
        '6'
    } else if d == 7 {
        '7'
    } else if d == 8 {
        '8'
    } else {
        '9'
    }
}

/// Decimal rendering of a natural number, most significant digit first.
pub open spec fn nat_str(n: nat) -> Seq<char>
    decreases n,
{
    if n < 10 {
        seq![digit_char(n)]
    } else {
        nat_str(n / 10).push(digit_char(n % 10))
    }
}

/// Relies on str::chars together with Iterator::collect for Vec: the vector
/// holds exactly the string's characters in order.
#[verifier::external_body]
pub fn str_to_chars(s: &str) -> (r: Vec<char>)
    ensures
        r@ == s@,
{
    s.chars().collect()
}

/// Relies on String's FromIterator over char: the string holds exactly the
/// given characters in order.
#[verifier::external_body]
pub fn chars_to_string(v: &Vec<char>) -> (r: String)
    ensures
        r@ == v@,
{
    v.iter().collect()
}

/// Appends the decimal digits of `n` to `out`.
#[verifier::spinoff_prover]
pub fn push_u128(out: &mut Vec<char>, n: u128)
    ensures
        final(out)@ == old(out)@ + nat_str(n as nat),
{
    let mut rev: Vec<char> = Vec::new();
    let mut m: u128 = n;
    proof {
        assert(nat_str(n as nat) =~= nat_str(n as nat) + rev@.reverse());
    }
    loop
        invariant_except_break
            nat_str(n as nat) == nat_str(m as nat) + rev@.reverse(),
        ensures
            nat_str(n as nat) == rev@.reverse(),
        decreases m,
    {
        let d: u128 = m % 10;
        let c = digit_char_exec(d as u8);
        let ghost old_rev = rev@;
        rev.push(c);
        proof {
            assert(rev@.reverse() =~= seq![c] + old_rev.reverse());
        }
        if m < 10 {
            proof {
                assert(nat_str(m as nat) == seq![digit_char(m as nat)]);
                assert(nat_str(n as nat) =~= rev@.reverse());
            }
            break ;
        }
        proof {
            assert(nat_str(m as nat) == nat_str((m as nat) / 10).push(digit_char(
                (m as nat) % 10,
            )));
            assert(nat_str((m as nat) / 10) + seq![c] + old_rev.reverse() =~= nat_str(m as nat)
                + old_rev.reverse());
            assert(nat_str((m as nat) / 10) + (seq![c] + old_rev.reverse()) =~= nat_str(
                (m as nat) / 10,
            ) + seq![c] + old_rev.reverse());
        }
        m = m / 10;
    }
    let mut i: usize = rev.len();
    let ghost start = out@;
    while i > 0
        invariant
            i <= rev.len(),
            out@ == start + rev@.subrange(i as int, rev@.len() as int).reverse(),
        decreases i,
    {
        i = i - 1;
        out.push(rev[i]);
        proof {
            assert(rev@.subrange(i as int, rev@.len() as int).reverse() =~= rev@.subrange(
                i + 1,
                rev@.len() as int,
            ).reverse().push(rev@[i as int]));
        }
    }
    proof {
        assert(rev@.subrange(0, rev@.len() as int) =~= rev@);
        assert(out@ =~= start + nat_str(n as nat));
    }
}

/// The digit character of a value below ten.
pub fn digit_char_exec(d: u8) -> (c: char)
    requires
        d < 10,
    ensures
        c == digit_char(d as nat),
{
    if d == 0 {
        '0'
    } else if d == 1 {
        '1'
    } else if d == 2 {
        '2'
    } else if d == 3 {
        '3'
    } else if d == 4 {
        '4'
    } else if d == 5 {
        '5'
    } else if d == 6 {
        '6'
    } else if d == 7 {
        '7'
    } else if d == 8 {
        '8'
    } else {
        '9'
    }
}

/// Appends the decimal digits of `n` to `out`.
pub fn push_usize(out: &mut Vec<char>, n: usize)
    ensures
        final(out)@ == old(out)@ + nat_str(n as nat),
{
    push_u128(out, n as u128);
}

/// Appends every character of `s` to `out`.
pub fn push_str_chars(out: &mut Vec<char>, s: &str)
    ensures
        final(out)@ == old(out)@ + s@,
{
    let cs = str_to_chars(s);
    push_all(out, &cs);
}

/// Appends every character of `cs` to `out`.
pub fn push_all(out: &mut Vec<char>, cs: &Vec<char>)
    ensures
        final(out)@ == old(out)@ + cs@,
{
    let mut j: usize = 0;
    while j < cs.len()
        invariant
            j <= cs.len(),
            out@ == old(out)@ + cs@.subrange(0, j as int),
        decreases cs.len() - j,
    {
        out.push(cs[j]);
        proof {
            assert(cs@.subrange(0, j as int).push(cs@[j as int]) =~= cs@.subrange(0, j + 1));
        }
        j = j + 1;
    }
    proof {
        assert(cs@.subrange(0, cs@.len() as int) =~= cs@);
    }
}

/// Whether a character separates tokens.
pub open spec fn is_ws(c: char) -> bool {
    c == ' ' || c == '\t' || c == '\r'
}

/// The tokens of the rest of a line, given the partial token read so far.
pub open spec fn tokens_acc(s: Seq<char>, cur: Seq<char>) -> Seq<Seq<char>>
    decreases s.len(),
{
    if s.len() == 0 {
        if cur.len() == 0 {
            Seq::empty()
        } else {
            seq![cur]
        }
    } else if is_ws(s[0]) {
        (if cur.len() == 0 {
            Seq::<Seq<char>>::empty()
        } else {
            seq![cur]
        }) + tokens_acc(s.drop_first(), Seq::empty())
    } else {
        tokens_acc(s.drop_first(), cur.push(s[0]))
    }
}

/// The whitespace-separated tokens of a line, in order.
pub open spec fn tokens_spec(s: Seq<char>) -> Seq<Seq<char>> {
    tokens_acc(s, Seq::empty())
}

/// Splits a line into whitespace-separated tokens.
pub fn split_tokens(line: &Vec<char>) -> (r: Vec<Vec<char>>)
    ensures
        r@.len() == tokens_spec(line@).len(),
        forall|i: int| 0 <= i < r@.len() ==> #[trigger] r@[i]@ == tokens_spec(line@)[i],
{
    let n = line.len();
    let mut out: Vec<Vec<char>> = Vec::new();
    let mut cur: Vec<char> = Vec::new();
    let mut i: usize = 0;
    proof {
        assert(line@.subrange(0, n as int) =~= line@);
    }
    while i < n
        invariant
            i <= n,
            n == line@.len(),
            tokens_spec(line@) == out@.map_values(|t: Vec<char>| t@) + tokens_acc(
                line@.subrange(i as int, n as int),
                cur@,
            ),
        decreases n - i,
    {
        let ghost rest = line@.subrange(i as int, n as int);
        proof {
            assert(rest.drop_first() =~= line@.subrange(i + 1, n as int));
        }
        let c = line[i];
        if c == ' ' || c == '\t' || c == '\r' {
            if cur.len() > 0 {
                let ghost pre = out@;
                out.push(cur);
                proof {
                    assert(out@.map_values(|t: Vec<char>| t@) =~= pre.map_values(
                        |t: Vec<char>| t@,
                    ).push(cur@));
                    assert(pre.map_values(|t: Vec<char>| t@) + (seq![cur@] + tokens_acc(
                        rest.drop_first(),
                        Seq::empty(),
                    )) =~= out@.map_values(|t: Vec<char>| t@) + tokens_acc(
                        rest.drop_first(),
                        Seq::empty(),
                    ));
                }
                cur = Vec::new();
            } else {
                proof {
                    assert(cur@ =~= Seq::<char>::empty());
                    assert((Seq::<Seq<char>>::empty() + tokens_acc(
                        rest.drop_first(),
                        Seq::empty(),
                    )) =~= tokens_acc(rest.drop_first(), Seq::empty()));
                }
            }
        } else {
            cur.push(c);
        }
        i = i + 1;
    }
    proof {
        assert(line@.subrange(n as int, n as int) =~= Seq::<char>::empty());
    }
    if cur.len() > 0 {
        let ghost pre = out@;
        out.push(cur);
        proof {
            assert(out@.map_values(|t: Vec<char>| t@) =~= pre.map_values(|t: Vec<char>| t@).push(
                cur@,
            ));
            assert(pre.map_values(|t: Vec<char>| t@) + seq![cur@] =~= out@.map_values(
                |t: Vec<char>| t@,
            ));
        }
    } else {
        proof {
            assert(out@.map_values(|t: Vec<char>| t@) + Seq::<Seq<char>>::empty()
                =~= out@.map_values(|t: Vec<char>| t@));
        }
    }
    proof {
        assert forall|i2: int| 0 <= i2 < out@.len() implies #[trigger] out@[i2]@ == tokens_spec(
            line@,
        )[i2] by {
            assert(out@.map_values(|t: Vec<char>| t@)[i2] == out@[i2]@);
        }
    }
    out
}

/// The characters of the name with every quote and semicolon removed.
pub open spec fn strip_marks_spec(s: Seq<char>) -> Seq<char>
    decreases s.len(),
{
    if s.len() == 0 {
        Seq::empty()
    } else if s.last() == '"' || s.last() == ';' {
        strip_marks_spec(s.drop_last())
    } else {
        strip_marks_spec(s.drop_last()).push(s.last())
    }
}

/// Removes every quote and semicolon from a token.
pub fn strip_marks(s: &Vec<char>) -> (r: Vec<char>)
    ensures
        r@ == strip_marks_spec(s@),
{
    let mut out: Vec<char> = Vec::new();
    let mut i: usize = 0;
    while i < s.len()
        invariant
            i <= s@.len(),
            out@ == strip_marks_spec(s@.subrange(0, i as int)),
        decreases s@.len() - i,
    {
        let c = s[i];
        proof {
            assert(s@.subrange(0, i + 1).drop_last() =~= s@.subrange(0, i as int));
            assert(s@.subrange(0, i + 1).last() == s@[i as int]);
        }
        if !(c == '"' || c == ';') {
            out.push(c);
        }
        i = i + 1;
    }
    proof {
        assert(s@.subrange(0, s@.len() as int) =~= s@);
    }
    out
}

} // verus!

use vstd::prelude::*;

verus! {

/// `t` occurs in `s` starting at `i`.
pub open spec fn occurs_at(s: Seq<char>, t: Seq<char>, i: int) -> bool {
    0 <= i && i + t.len() <= s.len() && s.subrange(i, i + t.len()) == t
}

pub open spec fn contains_text(s: Seq<char>, t: Seq<char>) -> bool {
    exists|i: int| occurs_at(s, t, i)
}

/// `s` with every occurrence of `pat` replaced by `rep`, scanning from the left
/// and resuming after each replacement.
pub open spec fn replaced(s: Seq<char>, pat: Seq<char>, rep: Seq<char>) -> Seq<char>
    decreases s.len(),
{
    if s.len() == 0 || pat.len() == 0 {
        s
    } else if occurs_at(s, pat, 0) {
        rep + replaced(s.subrange(pat.len() as int, s.len() as int), pat, rep)
    } else {
        seq![s[0]] + replaced(s.subrange(1, s.len() as int), pat, rep)
    }
}

pub open spec fn digit(d: nat) -> char {
    if d == 0 { '0' } else if d == 1 { '1' } else if d == 2 { '2' } else if d == 3 { '3' } else if d == 4 { '4' }
    else if d == 5 { '5' } else if d == 6 { '6' } else if d == 7 { '7' } else if d == 8 { '8' } else { '9' }
}

/// The decimal digits of `n`, most significant first.
pub open spec fn decimal(n: nat) -> Seq<char>
    decreases n,
{
    if n < 10 {
        seq![digit(n)]
    } else {
        decimal(n / 10).push(digit(n % 10))
    }
}

/// Relies on str::chars: the characters of `s`, in order.
#[verifier::external_body]
pub(crate) fn chars_of(s: &str) -> (r: Vec<char>)
    ensures
        r@ == s@,
{
    s.chars().collect()
}

/// Relies on String's FromIterator<char>: the string of the characters of `v`.
#[verifier::external_body]
pub(crate) fn string_of(v: &Vec<char>) -> (r: String)
    ensures
        r@ == v@,
{
    v.iter().collect()
}

fn digit_char(d: usize) -> (c: char)
    requires
        d < 10,
    ensures
        c == digit(d as nat),
{
    if d == 0 { '0' } else if d == 1 { '1' } else if d == 2 { '2' } else if d == 3 { '3' } else if d == 4 { '4' }
    else if d == 5 { '5' } else if d == 6 { '6' } else if d == 7 { '7' } else if d == 8 { '8' } else { '9' }
}

/// The decimal digits of `n`.
pub fn decimal_chars(n: usize) -> (r: Vec<char>)
    ensures
        r@ == decimal(n as nat),
    decreases n,
{
    if n < 10 {
        let mut r: Vec<char> = Vec::new();
        r.push(digit_char(n));
        r
    } else {
        let mut r = decimal_chars(n / 10);
        r.push(digit_char(n % 10));
        r
    }
}

/// Whether `pat` occurs in `s` at `i`.
pub fn occurs_at_exec(s: &Vec<char>, pat: &Vec<char>, i: usize) -> (r: bool)
    ensures
        r == occurs_at(s@, pat@, i as int),
{
    if i > s.len() || pat.len() > s.len() - i {
        return false;
    }
    let mut k: usize = 0;
    while k < pat.len()
        invariant
            i + pat.len() <= s.len(),
            k <= pat.len(),
            forall|j: int| 0 <= j < k ==> s@[i + j] == pat@[j],
        decreases pat.len() - k,
    {
        if s[i + k] != pat[k] {
            proof {
                assert(s@.subrange(i as int, i + pat@.len())[k as int] != pat@[k as int]);
            }
            return false;
        }
        k += 1;
    }
    proof {
        assert(s@.subrange(i as int, i + pat@.len()) =~= pat@);
    }
    true
}

/// Whether `t` occurs anywhere in `s`.
pub fn contains_exec(s: &Vec<char>, t: &Vec<char>) -> (r: bool)
    ensures
        r == contains_text(s@, t@),
{
    let mut i: usize = 0;
    while i < s.len()
        invariant
            i <= s.len(),
            forall|j: int| 0 <= j < i ==> !occurs_at(s@, t@, j),
        decreases s.len() - i,
    {
        if occurs_at_exec(s, t, i) {
            return true;
        }
        i += 1;
    }
    if occurs_at_exec(s, t, s.len()) {
        return true;
    }
    proof {
        assert forall|j: int| !occurs_at(s@, t@, j) by {
            if 0 <= j && j + t@.len() <= s@.len() {
                assert(j < s@.len() || j == s@.len());
            }
        }
    }
    false
}

/// `s` with every occurrence of `pat` replaced by `rep`.
pub fn replace_all(s: &Vec<char>, pat: &Vec<char>, rep: &Vec<char>) -> (r: Vec<char>)
    ensures
        r@ == replaced(s@, pat@, rep@),
{
    let mut out: Vec<char> = Vec::new();
    let mut i: usize = 0;
    proof {
        assert(s@.subrange(0, s@.len() as int) =~= s@);
    }
    while i < s.len()
        invariant
            i <= s.len(),
            out@ + replaced(s@.subrange(i as int, s@.len() as int), pat@, rep@) == replaced(s@, pat@, rep@),
        decreases s.len() - i,
    {
        let ghost rest = s@.subrange(i as int, s@.len() as int);
        if pat.len() > 0 && occurs_at_exec(s, pat, i) {
            proof {
                assert(rest.subrange(0, pat@.len() as int) =~= s@.subrange(i as int, i + pat@.len()));
                assert(rest.subrange(pat@.len() as int, rest.len() as int) =~= s@.subrange(i + pat@.len(), s@.len() as int));
            }
            let mut k: usize = 0;
            let ghost out0 = out@;
            while k < rep.len()
                invariant
                    k <= rep.len(),
                    out@ == out0 + rep@.subrange(0, k as int),
                decreases rep.len() - k,
            {
                out.push(rep[k]);
                k += 1;
                proof {
                    assert(out@ =~= out0 + rep@.subrange(0, k as int));
                }
            }
            proof {
                assert(rep@.subrange(0, rep@.len() as int) =~= rep@);
                assert(out@ + replaced(s@.subrange(i + pat@.len(), s@.len() as int), pat@, rep@)
                    =~= out0 + (rep@ + replaced(s@.subrange(i + pat@.len(), s@.len() as int), pat@, rep@)));
            }
            i = i + pat.len();
        } else {
            proof {
                if pat@.len() > 0 && pat@.len() <= rest.len() {
                    assert(rest.subrange(0, pat@.len() as int) =~= s@.subrange(i as int, i + pat@.len()));
                }
                assert(rest.subrange(1, rest.len() as int) =~= s@.subrange(i + 1, s@.len() as int));
            }
            let ghost out0 = out@;
            out.push(s[i]);
            proof {
                if pat@.len() == 0 {
                    assert(replaced(rest, pat@, rep@) == rest);
                    assert(replaced(s@.subrange(i + 1, s@.len() as int), pat@, rep@) == s@.subrange(i + 1, s@.len() as int));
                    assert(rest =~= seq![s@[i as int]] + s@.subrange(i + 1, s@.len() as int));
                }
                assert(out@ + replaced(s@.subrange(i + 1, s@.len() as int), pat@, rep@)
                    =~= out0 + (seq![s@[i as int]] + replaced(s@.subrange(i + 1, s@.len() as int), pat@, rep@)));
            }
            i = i + 1;
        }
    }
    proof {
        assert(out@ + replaced(s@.subrange(i as int, s@.len() as int), pat@, rep@) == out@ + Seq::<char>::empty());
        assert(out@ + Seq::<char>::empty() =~= out@);
    }
    out
}

} // verus!

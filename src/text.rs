//! Conversions between strings and character vectors.
use vstd::prelude::*;
use vstd::string::*;

verus! {

/// Relies on `String::push`: appends one character to the string.
#[verifier::external_body]
fn push_char(s: &mut String, c: char)
    ensures
        final(s)@ == old(s)@.push(c),
{
    s.push(c)
}

/// The characters of `s`, in order.
pub fn chars_of(s: &str) -> (r: Vec<char>)
    ensures
        r@ == s@,
{
    let n = s.unicode_len();
    let mut r: Vec<char> = Vec::new();
    let mut i: usize = 0;
    while i < n
        invariant
            n == s@.len(),
            i <= n,
            r@ == s@.take(i as int),
        decreases n - i,
    {
        r.push(s.get_char(i));
        i += 1;
        assert(r@ =~= s@.take(i as int));
    }
    assert(r@ =~= s@);
    r
}

/// The string made of the characters of `v`, in order.
pub fn string_of(v: &Vec<char>) -> (r: String)
    ensures
        r@ == v@,
{
    let mut r = String::new();
    let mut i: usize = 0;
    while i < v.len()
        invariant
            i <= v@.len(),
            r@ == v@.take(i as int),
        decreases v@.len() - i,
    {
        push_char(&mut r, v[i]);
        i += 1;
        assert(r@ =~= v@.take(i as int));
    }
    assert(r@ =~= v@);
    r
}

/// Whether `lit` stands in `s` at position `i`.
pub fn matches_at(s: &Vec<char>, i: usize, lit: &Vec<char>) -> (r: bool)
    ensures
        r == (i + lit@.len() <= s@.len() && s@.subrange(i as int, i + lit@.len()) == lit@),
{
    let n = s.len();
    let m = lit.len();
    if i > n || m > n - i {
        return false;
    }
    let mut k: usize = 0;
    while k < m
        invariant
            m == lit@.len(),
            n == s@.len(),
            i + m <= n,
            k <= m,
            forall|j: int| 0 <= j < k ==> s@[i + j] == lit@[j],
        decreases m - k,
    {
        if s[i + k] != lit[k] {
            assert(s@.subrange(i as int, i + m)[k as int] != lit@[k as int]);
            return false;
        }
        k += 1;
    }
    assert(s@.subrange(i as int, i + m) =~= lit@);
    true
}


/// `s` with a backslash before each `|`, so that it can stand in a cell of a
/// Markdown table.
pub open spec fn pipes_escaped(s: Seq<char>) -> Seq<char>
    decreases s.len(),
{
    if s.len() == 0 {
        Seq::empty()
    } else if s.last() == '|' {
        pipes_escaped(s.drop_last()) + seq!['\\', '|']
    } else {
        pipes_escaped(s.drop_last()).push(s.last())
    }
}

/// `s` with a backslash before each `|`.
pub fn escape_pipes(s: &str) -> (r: String)
    ensures
        r@ == pipes_escaped(s@),
{
    let cs = chars_of(s);
    let mut out: Vec<char> = Vec::new();
    let mut i: usize = 0;
    assert(s@.take(0) =~= Seq::<char>::empty());
    while i < cs.len()
        invariant
            cs@ == s@,
            i <= cs@.len(),
            out@ == pipes_escaped(s@.take(i as int)),
        decreases cs@.len() - i,
    {
        let ghost prefix = s@.take(i + 1);
        assert(prefix.drop_last() =~= s@.take(i as int));
        assert(prefix.last() == cs@[i as int]);
        let ghost before = out@;
        if cs[i] == '|' {
            out.push('\\');
            out.push('|');
            assert(out@ =~= before + seq!['\\', '|']);
        } else {
            out.push(cs[i]);
        }
        i += 1;
    }
    assert(s@.take(i as int) =~= s@);
    string_of(&out)
}

} // verus!

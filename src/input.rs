//! Reading a comma-separated list of tags as typed on the command line.
use vstd::prelude::*;
use crate::record::texts;
use crate::text::{chars_of, string_of};

verus! {

/// Whether `c` has the Unicode property White_Space.
pub open spec fn is_white_space(c: char) -> bool {
    ||| '\u{9}' <= c <= '\u{d}'
    ||| c == ' ' || c == '\u{85}' || c == '\u{a0}' || c == '\u{1680}'
    ||| '\u{2000}' <= c <= '\u{200a}'
    ||| c == '\u{2028}' || c == '\u{2029}' || c == '\u{202f}' || c == '\u{205f}' || c == '\u{3000}'
}

/// `s` without its leading white space.
pub open spec fn trim_start(s: Seq<char>) -> Seq<char>
    decreases s.len(),
{
    if s.len() > 0 && is_white_space(s[0]) {
        trim_start(s.drop_first())
    } else {
        s
    }
}

/// `s` without its trailing white space.
pub open spec fn trim_end(s: Seq<char>) -> Seq<char>
    decreases s.len(),
{
    if s.len() > 0 && is_white_space(s.last()) {
        trim_end(s.drop_last())
    } else {
        s
    }
}

/// `s` without leading and trailing white space.
pub open spec fn trimmed(s: Seq<char>) -> Seq<char> {
    trim_end(trim_start(s))
}

/// Relies on `str::trim`, which removes the leading and trailing characters
/// that have the Unicode property White_Space.
#[verifier::external_body]
fn trim(s: &str) -> (r: String)
    ensures
        r@ == trimmed(s@),
{
    s.trim().to_string()
}

/// The parts of `s` between commas, in order; a text without commas is one part.
pub open spec fn comma_parts(s: Seq<char>) -> Seq<Seq<char>>
    decreases s.len(),
{
    if s.len() == 0 {
        seq![Seq::empty()]
    } else {
        let prev = comma_parts(s.drop_last());
        if s.last() == ',' {
            prev.push(Seq::empty())
        } else {
            prev.update(prev.len() - 1, prev.last().push(s.last()))
        }
    }
}

/// The texts of `s` that are not empty, in order.
pub open spec fn non_empty(s: Seq<Seq<char>>) -> Seq<Seq<char>>
    decreases s.len(),
{
    if s.len() == 0 {
        Seq::empty()
    } else if s.last().len() == 0 {
        non_empty(s.drop_last())
    } else {
        non_empty(s.drop_last()).push(s.last())
    }
}

/// The tags that a comma-separated list names: each part trimmed, empty
/// parts left out.
pub open spec fn tag_list(s: Seq<char>) -> Seq<Seq<char>> {
    non_empty(comma_parts(s).map_values(|p: Seq<char>| trimmed(p)))
}

/// An empty list names no tags.
pub proof fn lemma_empty_list_has_no_tags()
    ensures
        tag_list(Seq::empty()).len() == 0,
{
    let parts = comma_parts(Seq::<char>::empty());
    let e = Seq::<char>::empty();
    assert(trim_start(e) == e);
    assert(trim_end(e) == e);
    assert(trimmed(e) == e);
    assert(comma_parts(e) =~= seq![e]);
    let all = parts.map_values(|p: Seq<char>| trimmed(p));
    assert(all =~= seq![e]);
    assert(all.drop_last() =~= Seq::<Seq<char>>::empty());
    assert(all.last().len() == 0);
    assert(non_empty(all) == non_empty(all.drop_last()));
    assert(non_empty(Seq::<Seq<char>>::empty()).len() == 0);
}

/// The tags that the comma-separated list `s` names, in order: each part is
/// trimmed of white space, and empty parts are left out.
pub fn split_tags(s: &str) -> (r: Vec<String>)
    ensures
        texts(r@) == tag_list(s@),
{
    let cs = chars_of(s);
    let mut parts: Vec<String> = Vec::new();
    let mut cur: Vec<char> = Vec::new();
    let mut i: usize = 0;
    assert(s@.take(0) =~= Seq::<char>::empty());
    assert(texts(parts@).push(cur@) =~= comma_parts(s@.take(0)));
    while i < cs.len()
        invariant
            cs@ == s@,
            i <= cs@.len(),
            texts(parts@).push(cur@) == comma_parts(s@.take(i as int)),
        decreases cs@.len() - i,
    {
        let ghost prefix = s@.take(i + 1);
        assert(prefix.drop_last() =~= s@.take(i as int));
        assert(prefix.last() == cs@[i as int]);
        let ghost before = texts(parts@);
        if cs[i] == ',' {
            let piece = string_of(&cur);
            parts.push(piece);
            cur = Vec::new();
            assert(texts(parts@) =~= before.push(piece@));
            assert(texts(parts@).push(cur@) =~= comma_parts(prefix));
        } else {
            cur.push(cs[i]);
            assert(texts(parts@).push(cur@) =~= comma_parts(prefix));
        }
        i += 1;
    }
    assert(s@.take(i as int) =~= s@);
    let last = string_of(&cur);
    parts.push(last);
    assert(texts(parts@) =~= comma_parts(s@));
    let ghost all = comma_parts(s@).map_values(|p: Seq<char>| trimmed(p));
    let mut r: Vec<String> = Vec::new();
    let mut k: usize = 0;
    while k < parts.len()
        invariant
            k <= parts@.len(),
            texts(parts@) == comma_parts(s@),
            all == comma_parts(s@).map_values(|p: Seq<char>| trimmed(p)),
            texts(r@) == non_empty(all.take(k as int)),
        decreases parts@.len() - k,
    {
        let ghost prefix = all.take(k + 1);
        assert(prefix.drop_last() =~= all.take(k as int));
        assert(prefix.last() == trimmed(parts@[k as int]@));
        let t = trim(parts[k].as_str());
        let ghost before = texts(r@);
        if t.as_str().unicode_len() > 0 {
            r.push(t);
            assert(texts(r@) =~= before.push(t@));
        }
        k += 1;
    }
    assert(all.take(k as int) =~= all);
    r
}

} // verus!

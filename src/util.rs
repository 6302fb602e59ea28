//! Ordering of tags: shorter in UTF-8 bytes first, then in character order
//! (which is the byte order of their UTF-8 forms).
use vstd::prelude::*;
use vstd::utf8::encode_utf8;
use crate::record::texts;
use crate::text::chars_of;

verus! {

broadcast use vstd::seq_lib::group_to_multiset_ensures;

/// Whether `a` comes strictly before `b` in character order, a proper prefix
/// coming first.
pub open spec fn lex_lt(a: Seq<char>, b: Seq<char>) -> bool
    decreases a.len(),
{
    if a.len() == 0 {
        b.len() > 0
    } else if b.len() == 0 {
        false
    } else if a[0] != b[0] {
        a[0] < b[0]
    } else {
        lex_lt(a.drop_first(), b.drop_first())
    }
}

/// The length of a text in UTF-8 bytes, as `str::len` counts it.
pub open spec fn byte_len(s: Seq<char>) -> nat {
    encode_utf8(s).len()
}

/// Whether tag `a` comes strictly before tag `b`: shorter in bytes first,
/// then in character order.
pub open spec fn tag_lt(a: Seq<char>, b: Seq<char>) -> bool {
    byte_len(a) < byte_len(b) || (byte_len(a) == byte_len(b) && lex_lt(a, b))
}

/// Whether each tag comes no later than the next.
pub open spec fn tags_sorted(s: Seq<Seq<char>>) -> bool {
    forall|i: int| 0 <= i < s.len() - 1 ==> !tag_lt(#[trigger] s[i + 1], s[i])
}

/// Whether `a` comes strictly before `b` in character order.
pub fn text_less(a: &str, b: &str) -> (r: bool)
    ensures
        r == lex_lt(a@, b@),
{
    let av = chars_of(a);
    let bv = chars_of(b);
    let mut i: usize = 0;
    assert(a@.skip(0) =~= a@);
    assert(b@.skip(0) =~= b@);
    while i < av.len() && i < bv.len() && av[i] == bv[i]
        invariant
            av@ == a@,
            bv@ == b@,
            i <= av@.len(),
            i <= bv@.len(),
            lex_lt(a@.skip(i as int), b@.skip(i as int)) == lex_lt(a@, b@),
        decreases av@.len() - i,
    {
        let ghost x = a@.skip(i as int);
        let ghost y = b@.skip(i as int);
        assert(x.drop_first() =~= a@.skip(i + 1));
        assert(y.drop_first() =~= b@.skip(i + 1));
        i += 1;
    }
    let ghost x = a@.skip(i as int);
    let ghost y = b@.skip(i as int);
    if i == av.len() {
        i < bv.len()
    } else if i == bv.len() {
        false
    } else {
        assert(x[0] == a@[i as int] && y[0] == b@[i as int]);
        av[i] < bv[i]
    }
}

fn tag_less(a: &String, b: &String) -> (r: bool)
    ensures
        r == tag_lt(a@, b@),
{
    let la = a.as_str().as_bytes().len();
    let lb = b.as_str().as_bytes().len();
    la < lb || (la == lb && text_less(a.as_str(), b.as_str()))
}

/// The tags ordered shorter in UTF-8 bytes first, then in character order.
pub fn sort_tags(tags: Vec<String>) -> (r: Vec<String>)
    ensures
        texts(r@).to_multiset() == texts(tags@).to_multiset(),
        tags_sorted(texts(r@)),
{
    let mut r: Vec<String> = Vec::new();
    let mut i: usize = 0;
    while i < tags.len()
        invariant
            i <= tags@.len(),
            texts(r@).to_multiset() == texts(tags@).take(i as int).to_multiset(),
            tags_sorted(texts(r@)),
        decreases tags@.len() - i,
    {
        let x = tags[i].clone();
        let mut pos: usize = 0;
        while pos < r.len() && !tag_less(&x, &r[pos])
            invariant
                pos <= r@.len(),
                forall|j: int| 0 <= j < pos ==> !tag_lt(x@, #[trigger] texts(r@)[j]),
            decreases r@.len() - pos,
        {
            pos += 1;
        }
        let ghost before = texts(r@);
        r.insert(pos, x);
        assert(texts(r@) =~= before.insert(pos as int, x@));
        assert(texts(tags@).take(i + 1) =~= texts(tags@).take(i as int).push(tags@[i as int]@));
        assert(tags_sorted(texts(r@))) by {
            let s = texts(r@);
            assert forall|k: int| 0 <= k < s.len() - 1 implies !tag_lt(#[trigger] s[k + 1], s[k]) by {
                if k + 1 < pos {
                    assert(s[k] == before[k] && s[k + 1] == before[k + 1]);
                    assert(!tag_lt(before[k + 1], before[k]));
                } else if k + 1 == pos {
                    assert(s[k] == before[k] && s[k + 1] == x@);
                    assert(!tag_lt(x@, before[k]));
                } else if k == pos {
                    assert(s[k] == x@ && s[k + 1] == before[k]);
                    assert(tag_lt(x@, before[k]));
                    if tag_lt(before[k], x@) {
                        lemma_lex_asym(before[k], x@);
                    }
                } else {
                    assert(s[k] == before[k - 1] && s[k + 1] == before[k]);
                    assert(!tag_lt(before[(k - 1) + 1], before[k - 1]));
                }
            }
        }
        i += 1;
    }
    assert(texts(tags@).take(i as int) =~= texts(tags@));
    r
}

/// No two texts each come before the other.
pub proof fn lemma_lex_asym(a: Seq<char>, b: Seq<char>)
    ensures
        !(lex_lt(a, b) && lex_lt(b, a)),
    decreases a.len(),
{
    if a.len() > 0 && b.len() > 0 && a[0] == b[0] {
        lemma_lex_asym(a.drop_first(), b.drop_first());
    }
}

} // verus!

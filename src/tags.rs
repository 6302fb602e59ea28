//! How often each tag is used over the records of a log file, and the tags
//! ranked by use.
use vstd::prelude::*;
use crate::codec::{decode, parse_line};
use crate::record::{lemma_unique_tags, texts, unique_tags};
use crate::store::LogFile;
use crate::util::{lemma_lex_asym, lex_lt, text_less};

verus! {

broadcast use vstd::seq_lib::group_to_multiset_ensures;

/// The tags of all lines that hold records, in order, repetitions included.
pub open spec fn all_tags(lines: Seq<Seq<char>>) -> Seq<Seq<char>>
    decreases lines.len(),
{
    if lines.len() == 0 {
        Seq::empty()
    } else {
        all_tags(lines.drop_last()) + match parse_line(lines.last()) {
            Some(r) => r.tags,
            None => Seq::empty(),
        }
    }
}

/// The number of times `t` occurs in `s`.
pub open spec fn count_of(s: Seq<Seq<char>>, t: Seq<char>) -> nat
    decreases s.len(),
{
    if s.len() == 0 {
        0
    } else {
        count_of(s.drop_last(), t) + if s.last() == t {
            1nat
        } else {
            0nat
        }
    }
}

/// The tags of a table of counts.
pub open spec fn count_keys(v: Seq<(String, usize)>) -> Seq<Seq<char>> {
    v.map_values(|p: (String, usize)| p.0@)
}

/// A table of counts as tags and numbers.
pub open spec fn count_view(v: Seq<(String, usize)>) -> Seq<(Seq<char>, usize)> {
    v.map_values(|p: (String, usize)| (p.0@, p.1))
}

proof fn lemma_count_bounds(s: Seq<Seq<char>>, t: Seq<char>)
    ensures
        count_of(s, t) <= s.len(),
        !s.contains(t) ==> count_of(s, t) == 0,
    decreases s.len(),
{
    if s.len() > 0 {
        lemma_count_bounds(s.drop_last(), t);
        if !s.contains(t) {
            assert(!s.drop_last().contains(t)) by {
                if s.drop_last().contains(t) {
                    let k = choose|k: int| 0 <= k < s.drop_last().len() && s.drop_last()[k] == t;
                    assert(s[k] == t);
                }
            }
            assert(s[s.len() - 1] != t);
        }
    }
}

fn find_key(v: &Vec<(String, usize)>, t: &String) -> (r: Option<usize>)
    ensures
        r matches Some(k) ==> k < v@.len() && count_keys(v@)[k as int] == t@,
        r is None ==> !count_keys(v@).contains(t@),
{
    let mut i: usize = 0;
    while i < v.len()
        invariant
            i <= v@.len(),
            forall|j: int| 0 <= j < i ==> count_keys(v@)[j] != t@,
        decreases v@.len() - i,
    {
        if v[i].0 == *t {
            return Some(i);
        }
        i += 1;
    }
    assert(!count_keys(v@).contains(t@)) by {
        if count_keys(v@).contains(t@) {
            let k = choose|k: int| 0 <= k < count_keys(v@).len() && count_keys(v@)[k] == t@;
            assert(count_keys(v@)[k] != t@);
        }
    }
    None
}

/// The tags of `flat`, each once in order of first use, with the number of
/// times it is used.
fn count_tags(flat: &Vec<String>) -> (r: Vec<(String, usize)>)
    ensures
        count_keys(r@) == unique_tags(texts(flat@)),
        forall|k: int| 0 <= k < r@.len() ==> #[trigger] r@[k].1 == count_of(texts(flat@), count_keys(r@)[k]),
{
    let ghost f = texts(flat@);
    let mut out: Vec<(String, usize)> = Vec::new();
    let mut i: usize = 0;
    assert(count_keys(out@) =~= unique_tags(f.take(0)));
    while i < flat.len()
        invariant
            f == texts(flat@),
            i <= flat@.len(),
            count_keys(out@) == unique_tags(f.take(i as int)),
            forall|k: int| 0 <= k < out@.len() ==> #[trigger] out@[k].1 == count_of(f.take(i as int), count_keys(out@)[k]),
        decreases flat@.len() - i,
    {
        let ghost p = f.take(i as int);
        let ghost q = f.take(i + 1);
        let ghost keys = count_keys(out@);
        let ghost old_out = out@;
        assert(q.drop_last() =~= p);
        assert(q.last() == f[i as int]);
        proof {
            lemma_unique_tags(p);
            lemma_count_bounds(p, f[i as int]);
            assert(keys.to_set().contains(f[i as int]) == keys.contains(f[i as int]));
            assert(p.to_set().contains(f[i as int]) == p.contains(f[i as int]));
        }
        match find_key(&out, &flat[i]) {
            Some(k) => {
                let c = out[k].1;
                proof {
                    lemma_count_bounds(p, keys[k as int]);
                }
                let key = out[k].0.clone();
                out.set(k, (key, c + 1));
                assert(count_keys(out@) =~= keys);
                assert forall|j: int| 0 <= j < out@.len() implies #[trigger] out@[j].1 == count_of(q, count_keys(out@)[j]) by {
                    if j != k {
                        assert(keys[j] != keys[k as int]);
                        assert(out@[j] == old_out[j]);
                    }
                }
            },
            None => {
                out.push((flat[i].clone(), 1));
                assert(count_keys(out@) =~= keys.push(f[i as int]));
                assert forall|j: int| 0 <= j < out@.len() implies #[trigger] out@[j].1 == count_of(q, count_keys(out@)[j]) by {
                    if j < old_out.len() {
                        assert(out@[j] == old_out[j]);
                        assert(keys[j] != f[i as int]);
                    }
                }
            },
        }
        i += 1;
    }
    assert(f.take(i as int) =~= f);
    out
}

impl LogFile {
    /// Each tag used by the records of the file, once, in order of first
    /// use, with the number of times it is used. Lines that hold no record
    /// are passed over; a file that does not exist has no tags.
    pub fn tag_counts(&self) -> (r: Vec<(String, usize)>)
        ensures
            self@ is None ==> r@.len() == 0,
            self@ matches Some(lines) ==> count_keys(r@) == unique_tags(all_tags(lines)) && forall|k: int|
                0 <= k < r@.len() ==> #[trigger] r@[k].1 == count_of(all_tags(lines), count_keys(r@)[k]),
    {
        if !self.is_present() {
            return Vec::new();
        }
        let lines_vec = self.lines();
        let ghost lines = self@->Some_0;
        let mut flat: Vec<String> = Vec::new();
        let mut i: usize = 0;
        while i < lines_vec.len()
            invariant
                texts(lines_vec@) == lines,
                i <= lines.len(),
                texts(flat@) == all_tags(lines.take(i as int)),
            decreases lines.len() - i,
        {
            let ghost prefix = lines.take(i + 1);
            assert(prefix.drop_last() =~= lines.take(i as int));
            assert(prefix.last() == lines[i as int]);
            if let Ok(rec) = decode(lines_vec[i].as_str()) {
                let ghost base = texts(flat@);
                let mut j: usize = 0;
                while j < rec.tags.len()
                    invariant
                        j <= rec.tags@.len(),
                        texts(flat@) == base + texts(rec.tags@).take(j as int),
                    decreases rec.tags@.len() - j,
                {
                    let ghost before = texts(flat@);
                    let t = rec.tags[j].clone();
                    flat.push(t);
                    assert(texts(flat@) =~= before.push(t@));
                    assert(texts(rec.tags@).take(j + 1) =~= texts(rec.tags@).take(j as int).push(rec.tags@[j as int]@));
                    j += 1;
                    assert(texts(flat@) =~= base + texts(rec.tags@).take(j as int));
                }
                assert(texts(rec.tags@).take(j as int) =~= texts(rec.tags@));
            } else {
                assert(texts(flat@) =~= all_tags(lines.take(i as int)) + Seq::<Seq<char>>::empty());
            }
            i += 1;
        }
        assert(lines.take(i as int) =~= lines);
        count_tags(&flat)
    }
}


/// Whether entry `a` ranks strictly before entry `b`: more uses first, then
/// the tag in character order.
pub open spec fn ranks_before(a: (Seq<char>, usize), b: (Seq<char>, usize)) -> bool {
    a.1 > b.1 || (a.1 == b.1 && lex_lt(a.0, b.0))
}

/// Whether each entry ranks no later than the next.
pub open spec fn ranked(s: Seq<(Seq<char>, usize)>) -> bool {
    forall|i: int| 0 <= i < s.len() - 1 ==> !ranks_before(#[trigger] s[i + 1], s[i])
}

fn ranks_less(a: &(String, usize), b: &(String, usize)) -> (r: bool)
    ensures
        r == ranks_before((a.0@, a.1), (b.0@, b.1)),
{
    a.1 > b.1 || (a.1 == b.1 && text_less(a.0.as_str(), b.0.as_str()))
}

/// The entries ordered by number of uses, most first, and then by tag.
pub fn rank_tags(counts: Vec<(String, usize)>) -> (r: Vec<(String, usize)>)
    ensures
        count_view(r@).to_multiset() == count_view(counts@).to_multiset(),
        ranked(count_view(r@)),
{
    let mut r: Vec<(String, usize)> = Vec::new();
    let mut i: usize = 0;
    while i < counts.len()
        invariant
            i <= counts@.len(),
            count_view(r@).to_multiset() == count_view(counts@).take(i as int).to_multiset(),
            ranked(count_view(r@)),
        decreases counts@.len() - i,
    {
        let x = (counts[i].0.clone(), counts[i].1);
        let ghost xv = (x.0@, x.1);
        let mut pos: usize = 0;
        while pos < r.len() && !ranks_less(&x, &r[pos])
            invariant
                pos <= r@.len(),
                xv == (x.0@, x.1),
                forall|j: int| 0 <= j < pos ==> !ranks_before(xv, #[trigger] count_view(r@)[j]),
            decreases r@.len() - pos,
        {
            pos += 1;
        }
        let ghost before = count_view(r@);
        r.insert(pos, x);
        assert(count_view(r@) =~= before.insert(pos as int, xv));
        assert(count_view(counts@).take(i + 1) =~= count_view(counts@).take(i as int).push(xv));
        assert(ranked(count_view(r@))) by {
            let s = count_view(r@);
            assert forall|k: int| 0 <= k < s.len() - 1 implies !ranks_before(#[trigger] s[k + 1], s[k]) by {
                if k + 1 < pos {
                    assert(s[k] == before[k] && s[k + 1] == before[k + 1]);
                    assert(!ranks_before(before[k + 1], before[k]));
                } else if k + 1 == pos {
                    assert(s[k] == before[k] && s[k + 1] == xv);
                } else if k == pos {
                    assert(s[k] == xv && s[k + 1] == before[k]);
                    if ranks_before(before[k], xv) {
                        lemma_lex_asym(before[k].0, xv.0);
                    }
                } else {
                    assert(s[k] == before[k - 1] && s[k + 1] == before[k]);
                    assert(!ranks_before(before[(k - 1) + 1], before[k - 1]));
                }
            }
        }
        i += 1;
    }
    assert(count_view(counts@).take(i as int) =~= count_view(counts@));
    r
}

} // verus!

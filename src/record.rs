//! One log entry: a timestamp, a text and a set of tags.
use vstd::prelude::*;
use crate::timestamp::Timestamp;

verus! {

/// The views of a sequence of strings.
pub open spec fn texts(v: Seq<String>) -> Seq<Seq<char>> {
    v.map_values(|t: String| t@)
}

/// A log entry as a mathematical value.
pub struct RecordView {
    pub timestamp: Timestamp,
    pub content: Seq<char>,
    pub tags: Seq<Seq<char>>,
}

/// A log entry.
#[derive(Clone, Debug)]
pub struct Record {
    pub timestamp: Timestamp,
    pub content: String,
    pub tags: Vec<String>,
}

/// A log entry, under its other name.
pub type LogEntry = Record;

impl View for Record {
    type V = RecordView;

    open spec fn view(&self) -> RecordView {
        RecordView { timestamp: self.timestamp, content: self.content@, tags: texts(self.tags@) }
    }
}

impl RecordView {
    pub open spec fn wf(&self) -> bool {
        self.timestamp.wf()
    }

    /// The tags as a set.
    pub open spec fn tag_set(&self) -> Set<Seq<char>> {
        self.tags.to_set()
    }
}

/// The tags of `s` with every repetition after the first left out.
pub open spec fn unique_tags(s: Seq<Seq<char>>) -> Seq<Seq<char>>
    decreases s.len(),
{
    if s.len() == 0 {
        Seq::empty()
    } else {
        let u = unique_tags(s.drop_last());
        if u.contains(s.last()) {
            u
        } else {
            u.push(s.last())
        }
    }
}

/// Keeping the first of each tag loses no tag and repeats none.
pub proof fn lemma_unique_tags(s: Seq<Seq<char>>)
    ensures
        unique_tags(s).to_set() == s.to_set(),
        unique_tags(s).no_duplicates(),
    decreases s.len(),
{
    if s.len() == 0 {
        assert(unique_tags(s).to_set() =~= s.to_set());
    } else {
        let d = s.drop_last();
        lemma_unique_tags(d);
        let u = unique_tags(d);
        let l = s.last();
        assert(s =~= d.push(l));
        assert forall|x| s.contains(x) <==> unique_tags(s).contains(x) by {
            assert(u.push(l)[u.len() as int] == l);
            if s.contains(x) {
                let k = choose|k: int| 0 <= k < s.len() && s[k] == x;
                if k < s.len() - 1 {
                    assert(d[k] == x);
                    assert(d.to_set().contains(x));
                    assert(u.to_set().contains(x));
                    let j = choose|j: int| 0 <= j < u.len() && u[j] == x;
                    assert(u.push(l)[j] == x);
                }
            }
            if unique_tags(s).contains(x) && x != l {
                let j = choose|j: int| 0 <= j < unique_tags(s).len() && unique_tags(s)[j] == x;
                assert(u[j] == x);
                assert(u.to_set().contains(x));
                assert(d.to_set().contains(x));
                let k = choose|k: int| 0 <= k < d.len() && d[k] == x;
                assert(s[k] == x);
            }
            if x == l {
                assert(s[s.len() - 1] == x);
            }
        }
        assert(unique_tags(s).to_set() =~= s.to_set());
        if !u.contains(l) {
            assert forall|i: int, j: int|
                0 <= i < u.push(l).len() && 0 <= j < u.push(l).len() && i != j
                implies u.push(l)[i] != u.push(l)[j] by {
                if i == u.len() {
                    assert(u[j] == u.push(l)[j]);
                } else if j == u.len() {
                    assert(u[i] == u.push(l)[i]);
                }
            }
        }
    }
}

/// Whether `t` is one of `v`.
pub fn contains_tag(v: &Vec<String>, t: &String) -> (r: bool)
    ensures
        r == texts(v@).contains(t@),
{
    let mut i: usize = 0;
    while i < v.len()
        invariant
            i <= v@.len(),
            forall|j: int| 0 <= j < i ==> v@[j]@ != t@,
        decreases v@.len() - i,
    {
        if v[i] == *t {
            assert(texts(v@)[i as int] == t@);
            return true;
        }
        i += 1;
    }
    assert(!texts(v@).contains(t@)) by {
        if texts(v@).contains(t@) {
            let k = choose|k: int| 0 <= k < texts(v@).len() && texts(v@)[k] == t@;
            assert(v@[k]@ == t@);
        }
    }
    false
}

/// The tags with repetitions removed, keeping the first of each.
pub fn dedup_tags(tags: &Vec<String>) -> (r: Vec<String>)
    ensures
        texts(r@) == unique_tags(texts(tags@)),
        texts(r@).to_set() == texts(tags@).to_set(),
        texts(r@).no_duplicates(),
{
    let mut r: Vec<String> = Vec::new();
    let mut i: usize = 0;
    while i < tags.len()
        invariant
            i <= tags@.len(),
            texts(r@) == unique_tags(texts(tags@).take(i as int)),
        decreases tags@.len() - i,
    {
        let ghost before = texts(r@);
        assert(texts(tags@).take(i + 1).drop_last() =~= texts(tags@).take(i as int));
        if !contains_tag(&r, &tags[i]) {
            r.push(tags[i].clone());
            assert(texts(r@) =~= before.push(tags@[i as int]@));
        } else {
            assert(texts(r@) =~= before);
        }
        i += 1;
    }
    assert(texts(tags@).take(i as int) =~= texts(tags@));
    proof {
        lemma_unique_tags(texts(tags@));
    }
    r
}

impl Record {
    /// A record with the given parts; repeated tags are kept once.
    pub fn new(timestamp: Timestamp, content: String, tags: &Vec<String>) -> (r: Record)
        ensures
            r@ == (RecordView {
                timestamp,
                content: content@,
                tags: unique_tags(texts(tags@)),
            }),
            r@.tag_set() == texts(tags@).to_set(),
            r@.tags.no_duplicates(),
    {
        Record { timestamp, content, tags: dedup_tags(tags) }
    }
}

} // verus!

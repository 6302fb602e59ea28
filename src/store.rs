//! The log file as a sequence of lines, one record each, and the operations
//! on it. A record's id is its 1-based line number at the time of the
//! operation: deleting or archiving renumbers the records after it.
use vstd::prelude::*;
use crate::codec::{decode, encode, line_of, parse_line};
use crate::error::LogError;
use crate::filter::{Filter, FilterView};
use crate::record::{Record, RecordView, dedup_tags, texts, unique_tags};
use crate::timestamp::{Timestamp, days_from_ce};

verus! {

/// The contents of the log file, or nothing where the file does not exist.
pub struct LogFile {
    present: bool,
    lines: Vec<String>,
}

impl View for LogFile {
    type V = Option<Seq<Seq<char>>>;

    closed spec fn view(&self) -> Option<Seq<Seq<char>>> {
        if self.present {
            Some(texts(self.lines@))
        } else {
            None
        }
    }
}

/// The number of lines of a file, 0 where it does not exist.
pub open spec fn line_count(f: Option<Seq<Seq<char>>>) -> nat {
    match f {
        Some(lines) => lines.len(),
        None => 0,
    }
}

/// The file after a line is added at its end, the file being created if needed.
pub open spec fn with_line(f: Option<Seq<Seq<char>>>, line: Seq<char>) -> Option<Seq<Seq<char>>> {
    match f {
        Some(lines) => Some(lines.push(line)),
        None => Some(seq![line]),
    }
}

/// The file after each of `new_lines` is added in turn.
pub open spec fn with_lines(f: Option<Seq<Seq<char>>>, new_lines: Seq<Seq<char>>) -> Option<
    Seq<Seq<char>>,
>
    decreases new_lines.len(),
{
    if new_lines.len() == 0 {
        f
    } else {
        with_line(with_lines(f, new_lines.drop_last()), new_lines.last())
    }
}

/// Whether the line at 0-based position `k` is the first one that holds no record.
pub open spec fn first_bad_line(lines: Seq<Seq<char>>, k: int) -> bool {
    &&& 0 <= k < lines.len()
    &&& parse_line(lines[k]) is None
    &&& forall|j: int| 0 <= j < k ==> parse_line(#[trigger] lines[j]) is Some
}

/// Whether every line holds a record.
pub open spec fn all_decode(lines: Seq<Seq<char>>) -> bool {
    forall|k: int| 0 <= k < lines.len() ==> parse_line(#[trigger] lines[k]) is Some
}

/// The records that a filter selects, each with its 1-based line number, in
/// file order.
pub open spec fn selection(lines: Seq<Seq<char>>, f: FilterView, today: int) -> Seq<(int, RecordView)>
    decreases lines.len(),
{
    if lines.len() == 0 {
        Seq::empty()
    } else {
        let prev = selection(lines.drop_last(), f, today);
        match parse_line(lines.last()) {
            Some(r) => if f.accepts(r, today) {
                prev.push((lines.len() as int, r))
            } else {
                prev
            },
            None => prev,
        }
    }
}

/// The lines whose 1-based numbers are not among `ids`, in order.
pub open spec fn kept_lines(lines: Seq<Seq<char>>, ids: Seq<usize>) -> Seq<Seq<char>>
    decreases lines.len(),
{
    if lines.len() == 0 {
        Seq::empty()
    } else {
        let prev = kept_lines(lines.drop_last(), ids);
        if ids.contains(lines.len() as usize) {
            prev
        } else {
            prev.push(lines.last())
        }
    }
}

/// The ids, in order, that name no line of a file of `n` lines.
pub open spec fn invalid_ids(ids: Seq<usize>, n: int) -> Seq<usize>
    decreases ids.len(),
{
    if ids.len() == 0 {
        Seq::empty()
    } else {
        let prev = invalid_ids(ids.drop_last(), n);
        if ids.last() == 0 || ids.last() > n {
            prev.push(ids.last())
        } else {
            prev
        }
    }
}

/// Whether a record is older than `cutoff` days on the day numbered `today`.
pub open spec fn is_old(r: RecordView, cutoff: i64, today: int) -> bool {
    today - days_from_ce(r.timestamp.year as int, r.timestamp.month as int, r.timestamp.day as int)
        > cutoff
}

/// Whether a record dated on day `day` is older than `cutoff` days on day `today`.
pub fn older_than(day: i32, today: i32, cutoff: i64) -> (r: bool)
    ensures
        r == (today - day > cutoff),
{
    today as i64 - day as i64 > cutoff
}

/// The lines whose records are older than `cutoff` days, in order.
pub open spec fn old_lines(lines: Seq<Seq<char>>, cutoff: i64, today: int) -> Seq<Seq<char>>
    decreases lines.len(),
{
    if lines.len() == 0 {
        Seq::empty()
    } else {
        let prev = old_lines(lines.drop_last(), cutoff, today);
        match parse_line(lines.last()) {
            Some(r) => if is_old(r, cutoff, today) {
                prev.push(lines.last())
            } else {
                prev
            },
            None => prev,
        }
    }
}

/// The lines whose records are not older than `cutoff` days, in order.
pub open spec fn recent_lines(lines: Seq<Seq<char>>, cutoff: i64, today: int) -> Seq<Seq<char>>
    decreases lines.len(),
{
    if lines.len() == 0 {
        Seq::empty()
    } else {
        let prev = recent_lines(lines.drop_last(), cutoff, today);
        match parse_line(lines.last()) {
            Some(r) => if !is_old(r, cutoff, today) {
                prev.push(lines.last())
            } else {
                prev
            },
            None => prev,
        }
    }
}

/// A record with new content, and new tags where some are given.
pub open spec fn updated(r: RecordView, content: Seq<char>, tags: Option<Seq<Seq<char>>>) -> RecordView {
    RecordView {
        timestamp: r.timestamp,
        content,
        tags: match tags {
            Some(t) => unique_tags(t),
            None => r.tags,
        },
    }
}

/// The record that `append` stores.
pub open spec fn new_record(now: Timestamp, content: Seq<char>, tags: Seq<Seq<char>>) -> RecordView {
    RecordView { timestamp: now, content, tags: unique_tags(tags) }
}

/// Whether `e` reports the first line of `lines` that holds no record.
pub open spec fn reports_first_bad_line(lines: Seq<Seq<char>>, e: LogError) -> bool {
    exists|k: int| first_bad_line(lines, k) && e == (LogError::Decode { line: (k + 1) as usize })
}

/// Found records as ids and record values.
pub open spec fn hits_view(hits: Seq<(usize, Record)>) -> Seq<(int, RecordView)> {
    hits.map_values(|h: (usize, Record)| (h.0 as int, h.1@))
}

/// The record that `copy` adds: made at `now`, with the tags of `r` and its
/// content or the given one.
pub open spec fn copied(r: RecordView, now: Timestamp, content: Option<Seq<char>>) -> RecordView {
    RecordView {
        timestamp: now,
        content: match content {
            Some(c) => c,
            None => r.content,
        },
        tags: r.tags,
    }
}

proof fn lemma_kept_len(lines: Seq<Seq<char>>, ids: Seq<usize>)
    ensures
        kept_lines(lines, ids).len() <= lines.len(),
    decreases lines.len(),
{
    if lines.len() > 0 {
        lemma_kept_len(lines.drop_last(), ids);
    }
}

/// Each added line adds one to the count: after any sequence of appends to a
/// file that did not exist, the count is the number of appends.
pub proof fn lemma_count_after_appends(f: Option<Seq<Seq<char>>>, new_lines: Seq<Seq<char>>)
    ensures
        line_count(with_lines(f, new_lines)) == line_count(f) + new_lines.len(),
        f is None ==> line_count(with_lines(f, new_lines)) == new_lines.len(),
    decreases new_lines.len(),
{
    if new_lines.len() > 0 {
        lemma_count_after_appends(f, new_lines.drop_last());
    }
}

/// An update without tags keeps the record's tags; an update with an empty
/// list of tags leaves it with none. Both read back from the rewritten line.
pub proof fn lemma_update_tags(r: RecordView, content: Seq<char>)
    requires
        r.wf(),
    ensures
        parse_line(line_of(updated(r, content, None))) == Some(
            RecordView { timestamp: r.timestamp, content, tags: r.tags },
        ),
        parse_line(line_of(updated(r, content, Some(Seq::empty())))) == Some(
            RecordView { timestamp: r.timestamp, content, tags: Seq::empty() },
        ),
{
    crate::codec::lemma_line_round_trip(updated(r, content, None));
    crate::codec::lemma_line_round_trip(updated(r, content, Some(Seq::empty())));
}

/// Deleting ids that name no line keeps every line.
pub proof fn lemma_delete_invalid_keeps_lines(lines: Seq<Seq<char>>, ids: Seq<usize>)
    requires
        lines.len() <= usize::MAX,
        forall|i: int| 0 <= i < ids.len() ==> #[trigger] ids[i] == 0 || ids[i] > lines.len(),
    ensures
        kept_lines(lines, ids) == lines,
    decreases lines.len(),
{
    if lines.len() > 0 {
        let d = lines.drop_last();
        assert forall|i: int| 0 <= i < ids.len() implies #[trigger] ids[i] == 0 || ids[i] > d.len() by {}
        lemma_delete_invalid_keeps_lines(d, ids);
        assert(!ids.contains(lines.len() as usize)) by {
            if ids.contains(lines.len() as usize) {
                let i = choose|i: int| 0 <= i < ids.len() && ids[i] == lines.len() as usize;
                assert(ids[i] == 0 || ids[i] > lines.len());
            }
        }
        assert(d.push(lines.last()) =~= lines);
    }
}

/// Which lines a deletion keeps depends only on the set of ids given, not on
/// their order or repetitions.
pub proof fn lemma_delete_order_invariant(lines: Seq<Seq<char>>, a: Seq<usize>, b: Seq<usize>)
    requires
        a.to_set() == b.to_set(),
    ensures
        kept_lines(lines, a) == kept_lines(lines, b),
    decreases lines.len(),
{
    if lines.len() > 0 {
        lemma_delete_order_invariant(lines.drop_last(), a, b);
        let x = lines.len() as usize;
        assert(a.contains(x) == a.to_set().contains(x));
        assert(b.contains(x) == b.to_set().contains(x));
    }
}

/// What a batch deletion did.
#[derive(Clone, Debug, PartialEq, Eq)]
pub struct DeleteOutcome {
    /// The number of lines removed.
    pub removed: usize,
    /// The ids that named no line, in the order given.
    pub invalid: Vec<usize>,
}

fn contains_id(ids: &Vec<usize>, x: usize) -> (r: bool)
    ensures
        r == ids@.contains(x),
{
    let mut i: usize = 0;
    while i < ids.len()
        invariant
            i <= ids@.len(),
            forall|j: int| 0 <= j < i ==> ids@[j] != x,
        decreases ids@.len() - i,
    {
        if ids[i] == x {
            assert(ids@[i as int] == x);
            return true;
        }
        i += 1;
    }
    false
}

/// The position of the first line that holds no record, if there is one.
fn first_undecodable(lines: &Vec<String>) -> (r: Option<usize>)
    ensures
        r matches Some(k) ==> first_bad_line(texts(lines@), k as int),
        r is None ==> all_decode(texts(lines@)),
{
    let ghost ls = texts(lines@);
    let n = lines.len();
    let mut i: usize = 0;
    while i < n
        invariant
            n == lines@.len(),
            ls == texts(lines@),
            i <= n,
            forall|j: int| 0 <= j < i ==> parse_line(#[trigger] ls[j]) is Some,
        decreases n - i,
    {
        if let Err(_) = decode(lines[i].as_str()) {
            return Some(i);
        }
        i += 1;
    }
    None
}

impl LogFile {
    /// A log file that does not exist yet.
    pub fn missing() -> (f: LogFile)
        ensures
            f@ is None,
    {
        LogFile { present: false, lines: Vec::new() }
    }

    /// A log file with these lines.
    pub fn from_lines(lines: Vec<String>) -> (f: LogFile)
        ensures
            f@ == Some(texts(lines@)),
    {
        LogFile { present: true, lines }
    }

    /// Whether the file exists.
    pub fn is_present(&self) -> (r: bool)
        ensures
            r == self@ is Some,
    {
        self.present
    }

    /// The lines of the file, where it exists.
    pub fn lines(&self) -> (r: &Vec<String>)
        ensures
            self@ matches Some(l) ==> texts(r@) == l,
    {
        &self.lines
    }

    /// The number of lines, 0 where the file does not exist.
    pub fn count(&self) -> (r: usize)
        ensures
            r == line_count(self@),
    {
        if self.present {
            self.lines.len()
        } else {
            0
        }
    }

    fn push_line(&mut self, line: String)
        requires
            line_count(old(self)@) < usize::MAX,
        ensures
            final(self)@ == with_line(old(self)@, line@),
    {
        if !self.present {
            self.present = true;
            self.lines = Vec::new();
        }
        let ghost before = texts(self.lines@);
        self.lines.push(line);
        assert(texts(self.lines@) =~= before.push(line@));
    }

    /// Adds a record made now with `content` and `tags`, repeated tags kept
    /// once, at the end of the file, creating the file if needed; returns the
    /// new record's id.
    pub fn append(&mut self, content: String, tags: &Vec<String>, now: Timestamp) -> (id: usize)
        requires
            now.wf(),
            line_count(old(self)@) < usize::MAX,
        ensures
            final(self)@ == with_line(old(self)@, line_of(new_record(now, content@, texts(tags@)))),
            id == line_count(final(self)@),
    {
        let rec = Record::new(now, content, tags);
        let line = encode(&rec);
        self.push_line(line);
        self.count()
    }

    /// The records that `filter` selects on the day numbered `today`, each
    /// with its id, in file order. Fails where the file does not exist, and
    /// at the first line that holds no record.
    pub fn scan(&self, filter: &Filter, today: i32) -> (r: Result<Vec<(usize, Record)>, LogError>)
        ensures
            self@ is None ==> r == Err::<Vec<(usize, Record)>, LogError>(LogError::NotFound),
            r matches Ok(hits) ==> self@ matches Some(lines) && all_decode(lines) && hits_view(hits@)
                == selection(lines, filter@, today as int),
            r matches Err(e) ==> self@ is None || reports_first_bad_line(self@->Some_0, e),
    {
        if !self.present {
            return Err(LogError::NotFound);
        }
        let ghost lines = texts(self.lines@);
        let mut hits: Vec<(usize, Record)> = Vec::new();
        let mut i: usize = 0;
        while i < self.lines.len()
            invariant
                self.present,
                lines == texts(self.lines@),
                i <= lines.len(),
                forall|j: int| 0 <= j < i ==> parse_line(#[trigger] lines[j]) is Some,
                hits_view(hits@) == selection(
                    lines.take(i as int),
                    filter@,
                    today as int,
                ),
            decreases lines.len() - i,
        {
            let ghost before = hits_view(hits@);
            let ghost prefix = lines.take(i + 1);
            assert(prefix.drop_last() =~= lines.take(i as int));
            assert(prefix.last() == lines[i as int]);
            match decode(self.lines[i].as_str()) {
                Ok(rec) => {
                    if filter.accepts(&rec, today) {
                        hits.push((i + 1, rec));
                        assert(hits_view(hits@) =~= before.push(
                            ((i + 1) as int, rec@),
                        ));
                    }
                },
                Err(_) => {
                    let e = LogError::Decode { line: i + 1 };
                    assert(first_bad_line(lines, i as int));
                    assert(e == LogError::Decode { line: (i as int + 1) as usize });
                    return Err(e);
                },
            }
            i += 1;
        }
        assert(lines.take(i as int) =~= lines);
        Ok(hits)
    }

    /// Replaces the content of record `id`, and its tags where `tags` is
    /// given (repeated tags kept once); every other line stays as it was.
    /// Fails where the file does not exist, at the first line that holds no
    /// record, and where no record has this id; the file is then unchanged.
    pub fn update(&mut self, id: usize, content: String, tags: Option<Vec<String>>) -> (r: Result<(), LogError>)
        ensures
            old(self)@ is None ==> r == Err::<(), LogError>(LogError::NotFound),
            old(self)@ matches Some(lines) ==> {
                if !all_decode(lines) {
                    r is Err && reports_first_bad_line(lines, r->Err_0)
                } else if id == 0 || id > lines.len() {
                    r == Err::<(), LogError>(LogError::InvalidId { id })
                } else {
                    &&& r is Ok
                    &&& final(self)@ == Some(lines.update(id - 1, line_of(updated(
                        parse_line(lines[id - 1])->Some_0,
                        content@,
                        match tags {
                            Some(t) => Some(texts(t@)),
                            None => None,
                        },
                    ))))
                }
            },
            r is Err ==> final(self)@ == old(self)@,
    {
        if !self.present {
            return Err(LogError::NotFound);
        }
        let n = self.lines.len();
        if let Some(k) = first_undecodable(&self.lines) {
            let e = LogError::Decode { line: k + 1 };
            assert(e == LogError::Decode { line: (k as int + 1) as usize });
            return Err(e);
        }
        if id == 0 || id > self.lines.len() {
            return Err(LogError::InvalidId { id });
        }
        let k = id - 1;
        let rec = match decode(self.lines[k].as_str()) {
            Ok(rec) => rec,
            Err(_) => {
                return Err(LogError::Decode { line: id });
            },
        };
        let new_tags = match &tags {
            Some(t) => dedup_tags(t),
            None => rec.tags,
        };
        let new_rec = Record { timestamp: rec.timestamp, content, tags: new_tags };
        let line = encode(&new_rec);
        let ghost before = texts(self.lines@);
        self.lines.set(k, line);
        assert(texts(self.lines@) =~= before.update(k as int, line@));
        Ok(())
    }

    /// Removes every line whose id is among `ids`; ids that name no line are
    /// reported and skipped, and an id given twice counts once. Fails where
    /// the file does not exist, and at the first line that holds no record;
    /// the file is then unchanged.
    pub fn delete(&mut self, ids: &Vec<usize>) -> (r: Result<DeleteOutcome, LogError>)
        ensures
            old(self)@ is None ==> r == Err::<DeleteOutcome, LogError>(LogError::NotFound),
            r matches Ok(out) ==> old(self)@ matches Some(lines) && all_decode(lines) && final(self)@
                == Some(kept_lines(lines, ids@)) && out.removed == lines.len() - kept_lines(lines, ids@).len()
                && out.invalid@ == invalid_ids(ids@, lines.len() as int),
            r matches Err(e) ==> old(self)@ is None || reports_first_bad_line(old(self)@->Some_0, e),
            r is Err ==> final(self)@ == old(self)@,
    {
        if !self.present {
            return Err(LogError::NotFound);
        }
        let ghost lines = texts(self.lines@);
        let n = self.lines.len();
        if let Some(k) = first_undecodable(&self.lines) {
            let e = LogError::Decode { line: k + 1 };
            assert(e == LogError::Decode { line: (k as int + 1) as usize });
            return Err(e);
        }
        let mut kept: Vec<String> = Vec::new();
        let mut i: usize = 0;
        while i < n
            invariant
                self.present,
                n == self.lines@.len(),
                lines == texts(self.lines@),
                i <= n,
                texts(kept@) == kept_lines(lines.take(i as int), ids@),
            decreases n - i,
        {
            let ghost prefix = lines.take(i + 1);
            assert(prefix.drop_last() =~= lines.take(i as int));
            assert(prefix.last() == lines[i as int]);
            let ghost before = texts(kept@);
            if !contains_id(ids, i + 1) {
                kept.push(self.lines[i].clone());
                assert(texts(kept@) =~= before.push(lines[i as int]));
            }
            i += 1;
        }
        assert(lines.take(i as int) =~= lines);
        let mut invalid: Vec<usize> = Vec::new();
        let mut j: usize = 0;
        while j < ids.len()
            invariant
                j <= ids@.len(),
                invalid@ == invalid_ids(ids@.take(j as int), n as int),
            decreases ids@.len() - j,
        {
            let ghost prefix = ids@.take(j + 1);
            assert(prefix.drop_last() =~= ids@.take(j as int));
            let x = ids[j];
            if x == 0 || x > n {
                invalid.push(x);
            }
            j += 1;
        }
        assert(ids@.take(j as int) =~= ids@);
        proof {
            lemma_kept_len(lines, ids@);
        }
        let removed = n - kept.len();
        self.lines = kept;
        Ok(DeleteOutcome { removed, invalid })
    }

    /// Adds, at the end of the file, a record made now with the tags of
    /// record `id` and its content, or `content` where that is given; returns
    /// the new record's id. Fails where the file does not exist, at the first
    /// line that holds no record, and where no record has this id; the file
    /// is then unchanged.
    pub fn copy(&mut self, id: usize, content: Option<String>, now: Timestamp) -> (r: Result<usize, LogError>)
        requires
            now.wf(),
            line_count(old(self)@) < usize::MAX,
        ensures
            old(self)@ is None ==> r == Err::<usize, LogError>(LogError::NotFound),
            old(self)@ matches Some(lines) ==> {
                if !all_decode(lines) {
                    r is Err && reports_first_bad_line(lines, r->Err_0)
                } else if id == 0 || id > lines.len() {
                    r == Err::<usize, LogError>(LogError::InvalidId { id })
                } else {
                    &&& r == Ok::<usize, LogError>((lines.len() + 1) as usize)
                    &&& final(self)@ == Some(lines.push(line_of(copied(
                        parse_line(lines[id - 1])->Some_0,
                        now,
                        match content {
                            Some(c) => Some(c@),
                            None => None,
                        },
                    ))))
                }
            },
            r is Err ==> final(self)@ == old(self)@,
    {
        if !self.present {
            return Err(LogError::NotFound);
        }
        let n = self.lines.len();
        if let Some(k) = first_undecodable(&self.lines) {
            let e = LogError::Decode { line: k + 1 };
            assert(e == LogError::Decode { line: (k as int + 1) as usize });
            return Err(e);
        }
        if id == 0 || id > self.lines.len() {
            return Err(LogError::InvalidId { id });
        }
        let rec = match decode(self.lines[id - 1].as_str()) {
            Ok(rec) => rec,
            Err(_) => {
                return Err(LogError::Decode { line: id });
            },
        };
        let new_content = match content {
            Some(c) => c,
            None => rec.content,
        };
        let ghost lines = texts(self.lines@);
        let ghost original = parse_line(lines[id - 1])->Some_0;
        let new_rec = Record { timestamp: now, content: new_content, tags: rec.tags };
        assert(new_rec@ == copied(
            original,
            now,
            match content {
                Some(c) => Some(c@),
                None => None,
            },
        ));
        let line = encode(&new_rec);
        self.push_line(line);
        assert(texts(self.lines@).len() == self.lines@.len());
        Ok(self.lines.len())
    }

    /// Moves out every record older than `cutoff` days on the day numbered
    /// `today`: returns their lines, in order, and keeps the others, in
    /// order. A line that holds no record is dropped from both. Fails where
    /// the file does not exist, which is then unchanged.
    pub fn archive(&mut self, cutoff: i64, today: i32) -> (r: Result<Vec<String>, LogError>)
        ensures
            old(self)@ is None ==> r == Err::<Vec<String>, LogError>(LogError::NotFound) && final(self)@
                == old(self)@,
            old(self)@ matches Some(lines) ==> r matches Ok(moved) && texts(moved@) == old_lines(
                lines,
                cutoff,
                today as int,
            ) && final(self)@ == Some(recent_lines(lines, cutoff, today as int)),
    {
        if !self.present {
            return Err(LogError::NotFound);
        }
        let ghost lines = texts(self.lines@);
        let n = self.lines.len();
        let mut moved: Vec<String> = Vec::new();
        let mut kept: Vec<String> = Vec::new();
        let mut i: usize = 0;
        while i < n
            invariant
                self.present,
                n == self.lines@.len(),
                lines == texts(self.lines@),
                i <= n,
                texts(moved@) == old_lines(lines.take(i as int), cutoff, today as int),
                texts(kept@) == recent_lines(lines.take(i as int), cutoff, today as int),
            decreases n - i,
        {
            let ghost prefix = lines.take(i + 1);
            assert(prefix.drop_last() =~= lines.take(i as int));
            assert(prefix.last() == lines[i as int]);
            let ghost moved_before = texts(moved@);
            let ghost kept_before = texts(kept@);
            if let Ok(rec) = decode(self.lines[i].as_str()) {
                if older_than(rec.timestamp.day_number(), today, cutoff) {
                    moved.push(self.lines[i].clone());
                    assert(texts(moved@) =~= moved_before.push(lines[i as int]));
                } else {
                    kept.push(self.lines[i].clone());
                    assert(texts(kept@) =~= kept_before.push(lines[i as int]));
                }
            }
            i += 1;
        }
        assert(lines.take(i as int) =~= lines);
        self.lines = kept;
        Ok(moved)
    }
}

} // verus!

//! Which records a query selects: by exact date, by age in days, by tags and
//! by a keyword.
use vstd::prelude::*;
use chrono::Datelike;
use crate::error::LogError;
use crate::record::{Record, RecordView, contains_tag, texts};
use crate::text::chars_of;

verus! {

/// The date that chrono reads from `s` in the form `%Y-%m-%d`.
pub uninterp spec fn parsed_date(s: Seq<char>) -> Option<(i32, u32, u32)>;

/// The lower-case form of `s` given by `str::to_lowercase`.
pub uninterp spec fn lower_of(s: Seq<char>) -> Seq<char>;

/// Relies on chrono's `NaiveDate::parse_from_str` with the format `%Y-%m-%d`,
/// whose result depends on the text alone.
#[verifier::external_body]
fn parse_date(s: &str) -> (r: Option<(i32, u32, u32)>)
    ensures
        r == parsed_date(s@),
{
    match chrono::NaiveDate::parse_from_str(s, "%Y-%m-%d") {
        Ok(d) => Some((d.year(), d.month(), d.day())),
        Err(_) => None,
    }
}

/// Relies on `str::to_lowercase`, whose result depends on the text alone.
#[verifier::external_body]
fn lowercase(s: &str) -> (r: String)
    ensures
        r@ == lower_of(s@),
{
    s.to_lowercase()
}

/// Whether `needle` stands somewhere in `hay`.
pub open spec fn occurs_in(needle: Seq<char>, hay: Seq<char>) -> bool {
    exists|i: int| 0 <= i <= hay.len() - needle.len() && #[trigger] hay.subrange(i, i + needle.len()) == needle
}

/// Whether every required tag is one of `tags`.
pub open spec fn has_all_tags(required: Seq<Seq<char>>, tags: Seq<Seq<char>>) -> bool {
    forall|i: int| 0 <= i < required.len() ==> tags.contains(#[trigger] required[i])
}

/// Whether a lower-cased keyword occurs in the lower-cased content or in one
/// of the lower-cased tags.
pub open spec fn keyword_in(keyword: Seq<char>, content: Seq<char>, tags: Seq<Seq<char>>) -> bool {
    occurs_in(keyword, content) || exists|i: int| 0 <= i < tags.len() && occurs_in(keyword, #[trigger] tags[i])
}

/// Whether a record dated on day `day` is at most `range` days old on day `today`.
pub open spec fn within_range(day: int, today: int, range: Option<i64>) -> bool {
    match range {
        Some(r) => today - day <= r,
        None => true,
    }
}

/// A keyword selects a record when it occurs, both lower-cased, in the
/// content or in any one tag, whatever the other texts are.
pub proof fn lemma_keyword_in_content_or_tag(f: FilterView, r: RecordView, today: int, i: int)
    requires
        f.keyword is Some,
        f.date is None,
        f.range is None,
        f.tags.len() == 0,
        occurs_in(f.keyword->Some_0, lower_of(r.content)) || (0 <= i < r.tags.len() && occurs_in(
            f.keyword->Some_0,
            lower_of(r.tags[i]),
        )),
    ensures
        f.accepts(r, today),
{
    let lowered = r.tags.map_values(|t: Seq<char>| lower_of(t));
    if 0 <= i < r.tags.len() && occurs_in(f.keyword->Some_0, lower_of(r.tags[i])) {
        assert(lowered[i] == lower_of(r.tags[i]));
    }
}

/// A query over records. Each criterion that is absent accepts every record.
#[derive(Clone, Debug)]
pub struct Filter {
    /// The calendar date, as year, month and day, a record must have.
    pub date: Option<(i32, u32, u32)>,
    /// The greatest age in days a record may have.
    pub range: Option<i64>,
    /// Tags a record must all have.
    pub tags: Vec<String>,
    /// A lower-case text that must occur in the content or in a tag.
    pub keyword: Option<String>,
}

/// The filter as a mathematical value.
pub struct FilterView {
    pub date: Option<(i32, u32, u32)>,
    pub range: Option<i64>,
    pub tags: Seq<Seq<char>>,
    pub keyword: Option<Seq<char>>,
}

impl View for Filter {
    type V = FilterView;

    open spec fn view(&self) -> FilterView {
        FilterView {
            date: self.date,
            range: self.range,
            tags: texts(self.tags@),
            keyword: match self.keyword {
                Some(k) => Some(k@),
                None => None,
            },
        }
    }
}

impl FilterView {
    /// Whether the filter selects record `r` on the day numbered `today`.
    pub open spec fn accepts(&self, r: RecordView, today: int) -> bool {
        let ts = r.timestamp;
        &&& match self.date {
            Some(d) => d == (ts.year, ts.month, ts.day),
            None => true,
        }
        &&& within_range(
            crate::timestamp::days_from_ce(ts.year as int, ts.month as int, ts.day as int),
            today,
            self.range,
        )
        &&& has_all_tags(self.tags, r.tags)
        &&& match self.keyword {
            Some(k) => keyword_in(k, lower_of(r.content), r.tags.map_values(|t: Seq<char>| lower_of(t))),
            None => true,
        }
    }
}


fn occurs_at(needle: &Vec<char>, hay: &Vec<char>, i: usize) -> (r: bool)
    requires
        i + needle@.len() <= hay@.len(),
    ensures
        r == (hay@.subrange(i as int, i + needle@.len()) == needle@),
{
    let m = needle.len();
    let n = hay.len();
    let mut k: usize = 0;
    while k < m
        invariant
            m == needle@.len(),
            n == hay@.len(),
            i + m <= n,
            k <= m,
            forall|j: int| 0 <= j < k ==> hay@[i + j] == needle@[j],
        decreases m - k,
    {
        if hay[i + k] != needle[k] {
            assert(hay@.subrange(i as int, i + m)[k as int] != needle@[k as int]);
            return false;
        }
        k += 1;
    }
    assert(hay@.subrange(i as int, i + m) =~= needle@);
    true
}

/// Whether `needle` stands somewhere in `hay`.
pub fn occurs(needle: &str, hay: &str) -> (r: bool)
    ensures
        r == occurs_in(needle@, hay@),
{
    let nv = chars_of(needle);
    let hv = chars_of(hay);
    let m = nv.len();
    let n = hv.len();
    if m == 0 {
        assert(hay@.subrange(0, 0 + needle@.len() as int) =~= needle@);
        return true;
    }
    if m > n {
        return false;
    }
    let mut i: usize = 0;
    while i <= n - m
        invariant
            m == nv@.len(),
            n == hv@.len(),
            0 < m <= n,
            i <= n - m + 1,
            nv@ == needle@,
            hv@ == hay@,
            forall|j: int| 0 <= j < i ==> #[trigger] hay@.subrange(j, j + m) != needle@,
        decreases n - m + 1 - i,
    {
        if occurs_at(&nv, &hv, i) {
            return true;
        }
        i += 1;
    }
    false
}

/// Whether every tag of `required` is one of `tags`.
pub fn has_tags(required: &Vec<String>, tags: &Vec<String>) -> (r: bool)
    ensures
        r == has_all_tags(texts(required@), texts(tags@)),
{
    let mut i: usize = 0;
    while i < required.len()
        invariant
            i <= required@.len(),
            forall|j: int| 0 <= j < i ==> texts(tags@).contains(#[trigger] texts(required@)[j]),
        decreases required@.len() - i,
    {
        if !contains_tag(tags, &required[i]) {
            assert(!texts(tags@).contains(texts(required@)[i as int]));
            return false;
        }
        i += 1;
    }
    true
}

/// Whether a lower-cased keyword occurs in lower-cased content or in one of
/// the lower-cased tags.
pub fn keyword_matches(keyword: &str, content: &str, tags: &Vec<String>) -> (r: bool)
    ensures
        r == keyword_in(keyword@, content@, texts(tags@)),
{
    if occurs(keyword, content) {
        return true;
    }
    let mut i: usize = 0;
    while i < tags.len()
        invariant
            i <= tags@.len(),
            forall|j: int| 0 <= j < i ==> !occurs_in(keyword@, #[trigger] texts(tags@)[j]),
        decreases tags@.len() - i,
    {
        if occurs(keyword, tags[i].as_str()) {
            assert(occurs_in(keyword@, texts(tags@)[i as int]));
            return true;
        }
        i += 1;
    }
    false
}

/// Whether a record dated on day `day` is at most `range` days old on day
/// `today`; any record is when there is no range.
pub fn in_range(day: i32, today: i32, range: Option<i64>) -> (r: bool)
    ensures
        r == within_range(day as int, today as int, range),
{
    match range {
        Some(limit) => today as i64 - day as i64 <= limit,
        None => true,
    }
}

fn lowercase_all(tags: &Vec<String>) -> (r: Vec<String>)
    ensures
        texts(r@) == texts(tags@).map_values(|t: Seq<char>| lower_of(t)),
{
    let mut r: Vec<String> = Vec::new();
    let mut i: usize = 0;
    while i < tags.len()
        invariant
            i <= tags@.len(),
            texts(r@) == texts(tags@).take(i as int).map_values(|t: Seq<char>| lower_of(t)),
        decreases tags@.len() - i,
    {
        let ghost before = texts(r@);
        let l = lowercase(tags[i].as_str());
        r.push(l);
        assert(texts(r@) =~= before.push(l@));
        assert(texts(tags@).take(i + 1) =~= texts(tags@).take(i as int).push(tags@[i as int]@));
        i += 1;
        assert(texts(r@) =~= texts(tags@).take(i as int).map_values(|t: Seq<char>| lower_of(t)));
    }
    assert(texts(tags@).take(i as int) =~= texts(tags@));
    r
}

impl Filter {
    /// The filter that selects every record.
    pub fn all() -> (f: Filter)
        ensures
            f@ == (FilterView { date: None, range: None, tags: Seq::empty(), keyword: None }),
    {
        let f = Filter { date: None, range: None, tags: Vec::new(), keyword: None };
        assert(f@.tags =~= Seq::<Seq<char>>::empty());
        f
    }

    /// A filter from a date text `YYYY-MM-DD`, an age limit in days, required
    /// tags and a keyword, each optional; fails when the date is not a date.
    pub fn new(date: Option<&str>, range: Option<i64>, tags: Vec<String>, keyword: Option<&str>) -> (r:
        Result<Filter, LogError>)
        ensures
            r is Err <==> (date matches Some(d) && parsed_date(d@) is None),
            r matches Err(e) ==> e == LogError::InvalidDate,
            r matches Ok(f) ==> f@ == (FilterView {
                date: match date {
                    Some(d) => parsed_date(d@),
                    None => None,
                },
                range,
                tags: texts(tags@),
                keyword: match keyword {
                    Some(k) => Some(lower_of(k@)),
                    None => None,
                },
            }),
    {
        let parsed = match date {
            Some(d) => match parse_date(d) {
                Some(ymd) => Some(ymd),
                None => {
                    return Err(LogError::InvalidDate);
                },
            },
            None => None,
        };
        let keyword = match keyword {
            Some(k) => Some(lowercase(k)),
            None => None,
        };
        Ok(Filter { date: parsed, range, tags, keyword })
    }

    /// Whether the filter selects `r` on the day numbered `today`.
    pub fn accepts(&self, r: &Record, today: i32) -> (b: bool)
        requires
            r@.wf(),
        ensures
            b == self@.accepts(r@, today as int),
    {
        let ts = r.timestamp;
        if let Some(d) = self.date {
            if !(d.0 == ts.year && d.1 == ts.month && d.2 == ts.day) {
                return false;
            }
        }
        if !in_range(ts.day_number(), today, self.range) {
            return false;
        }
        if !has_tags(&self.tags, &r.tags) {
            return false;
        }
        match &self.keyword {
            Some(k) => keyword_matches(
                k.as_str(),
                lowercase(r.content.as_str()).as_str(),
                &lowercase_all(&r.tags),
            ),
            None => true,
        }
    }
}

} // verus!

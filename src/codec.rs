//! The line format of a record:
//! `{"timestamp":"<text>","content":"<escaped>","tags":["<escaped>",...]}`.
//! Inside quotes, `"`, `\`, newline, carriage return and tab are escaped with a
//! backslash, so that a line never holds a line break.
use vstd::prelude::*;
use crate::record::{Record, RecordView, texts};
use crate::text::{chars_of, matches_at, string_of};
use crate::timestamp::{
    TIMESTAMP_LEN, lemma_timestamp_text_round_trip, lemma_timestamp_text_sound, parse_timestamp, parse_timestamp_text,
    push_timestamp_text,
};

verus! {

pub open spec fn escape_char(c: char) -> Seq<char> {
    if c == '"' {
        seq!['\\', '"']
    } else if c == '\\' {
        seq!['\\', '\\']
    } else if c == '\n' {
        seq!['\\', 'n']
    } else if c == '\r' {
        seq!['\\', 'r']
    } else if c == '\t' {
        seq!['\\', 't']
    } else {
        seq![c]
    }
}

/// The character that an escape `\c` stands for.
pub open spec fn unescape_char(c: char) -> Option<char> {
    if c == '"' {
        Some('"')
    } else if c == '\\' {
        Some('\\')
    } else if c == 'n' {
        Some('\n')
    } else if c == 'r' {
        Some('\r')
    } else if c == 't' {
        Some('\t')
    } else {
        None
    }
}

/// Whether `c` may stand unescaped inside quotes.
pub open spec fn is_plain(c: char) -> bool {
    c != '"' && c != '\\' && c != '\n' && c != '\r' && c != '\t'
}

pub open spec fn escape(s: Seq<char>) -> Seq<char>
    decreases s.len(),
{
    if s.len() == 0 {
        Seq::empty()
    } else {
        escape_char(s[0]) + escape(s.drop_first())
    }
}

/// `s` in quotes, escaped.
pub open spec fn quoted(s: Seq<char>) -> Seq<char> {
    seq!['"'] + escape(s) + seq!['"']
}

/// Reads an escaped text up to its closing quote, after the characters
/// `acc` already read: the text and what follows the quote.
pub open spec fn parse_quoted(s: Seq<char>, acc: Seq<char>) -> Option<(Seq<char>, Seq<char>)>
    decreases s.len(),
{
    if s.len() == 0 {
        None
    } else if s[0] == '"' {
        Some((acc, s.drop_first()))
    } else if s[0] == '\\' {
        if s.len() >= 2 && unescape_char(s[1]) is Some {
            parse_quoted(s.skip(2), acc.push(unescape_char(s[1])->0))
        } else {
            None
        }
    } else if is_plain(s[0]) {
        parse_quoted(s.drop_first(), acc.push(s[0]))
    } else {
        None
    }
}

pub open spec fn line_start() -> Seq<char> {
    seq!['{', '"', 't', 'i', 'm', 'e', 's', 't', 'a', 'm', 'p', '"', ':', '"']
}

pub open spec fn content_key() -> Seq<char> {
    seq!['"', ',', '"', 'c', 'o', 'n', 't', 'e', 'n', 't', '"', ':', '"']
}

pub open spec fn tags_key() -> Seq<char> {
    seq![',', '"', 't', 'a', 'g', 's', '"', ':', '[']
}

pub open spec fn line_end() -> Seq<char> {
    seq![']', '}']
}

/// What opens the tag at position `i` of the list.
pub open spec fn tag_open(i: int) -> Seq<char> {
    if i == 0 {
        seq!['"']
    } else {
        seq![',', '"']
    }
}

/// The tags from position `k` on, each quoted, separated by commas.
pub open spec fn tags_from(tags: Seq<Seq<char>>, k: int) -> Seq<char>
    decreases tags.len() - k,
{
    if k < 0 || k >= tags.len() {
        Seq::empty()
    } else {
        tag_open(k) + escape(tags[k]) + seq!['"'] + tags_from(tags, k + 1)
    }
}

/// The line that stores a record.
pub closed spec fn line_of(r: RecordView) -> Seq<char> {
    line_start() + r.timestamp.text() + content_key() + escape(r.content) + seq!['"'] + tags_key()
        + tags_from(r.tags, 0) + line_end()
}

/// Reads the tag list from its first tag or closing bracket on, after the
/// tags `acc` already read.
pub open spec fn parse_tags(s: Seq<char>, acc: Seq<Seq<char>>) -> Option<Seq<Seq<char>>>
    decreases s.len(),
{
    if s == line_end() {
        Some(acc)
    } else {
        let open = tag_open(acc.len() as int);
        if s.len() >= open.len() && s.take(open.len() as int) == open {
            match parse_quoted(s.skip(open.len() as int), Seq::empty()) {
                Some((t, rest)) => if rest.len() < s.len() {
                    parse_tags(rest, acc.push(t))
                } else {
                    None
                },
                None => None,
            }
        } else {
            None
        }
    }
}

pub open spec fn content_start() -> int {
    line_start().len() + TIMESTAMP_LEN + content_key().len()
}

/// Reads a record from a line.
pub closed spec fn parse_line(s: Seq<char>) -> Option<RecordView> {
    if s.len() >= content_start() && s.take(line_start().len() as int) == line_start()
        && s.subrange(line_start().len() + TIMESTAMP_LEN, content_start()) == content_key() {
        match parse_timestamp_text(s.subrange(line_start().len() as int, line_start().len() + TIMESTAMP_LEN)) {
            Some(timestamp) => match parse_quoted(s.skip(content_start()), Seq::empty()) {
                Some((content, rest)) => if rest.len() >= tags_key().len() && rest.take(
                    tags_key().len() as int,
                ) == tags_key() {
                    match parse_tags(rest.skip(tags_key().len() as int), Seq::empty()) {
                        Some(tags) => Some(RecordView { timestamp, content, tags }),
                        None => None,
                    }
                } else {
                    None
                },
                None => None,
            },
            None => None,
        }
    } else {
        None
    }
}

proof fn lemma_parse_quoted_escape(x: Seq<char>, rest: Seq<char>, acc: Seq<char>)
    ensures
        parse_quoted(escape(x) + seq!['"'] + rest, acc) == Some((acc + x, rest)),
    decreases x.len(),
{
    let s = escape(x) + seq!['"'] + rest;
    if x.len() == 0 {
        assert(escape(x) =~= Seq::<char>::empty());
        assert(s[0] == '"');
        assert(s.drop_first() =~= rest);
        assert(acc + x =~= acc);
    } else {
        let c = x[0];
        let t = x.drop_first();
        lemma_parse_quoted_escape(t, rest, acc.push(c));
        assert(acc.push(c) + t =~= acc + x);
        let tail = escape(t) + seq!['"'] + rest;
        assert(s =~= escape_char(c) + tail);
        if is_plain(c) {
            assert(s.drop_first() =~= tail);
        } else {
            assert(s.skip(2) =~= tail);
        }
    }
}

proof fn lemma_parse_tags_from(tags: Seq<Seq<char>>, k: int)
    requires
        0 <= k <= tags.len(),
    ensures
        parse_tags(tags_from(tags, k) + line_end(), tags.take(k)) == Some(tags),
    decreases tags.len() - k,
{
    let s = tags_from(tags, k) + line_end();
    if k == tags.len() {
        assert(s =~= line_end());
        assert(tags.take(k) =~= tags);
    } else {
        let open = tag_open(k);
        let rest = tags_from(tags, k + 1) + line_end();
        assert(s =~= open + (escape(tags[k]) + seq!['"'] + rest));
        assert(s != line_end()) by {
            if s == line_end() {
                assert(s[0] == open[0]);
            }
        }
        assert(s.take(open.len() as int) =~= open);
        assert(s.skip(open.len() as int) =~= escape(tags[k]) + seq!['"'] + rest);
        lemma_parse_quoted_escape(tags[k], rest, Seq::empty());
        assert(Seq::<char>::empty() + tags[k] =~= tags[k]);
        assert(tags.take(k).push(tags[k]) =~= tags.take(k + 1));
        lemma_parse_tags_from(tags, k + 1);
    }
}

/// Reading back the line that stores a record gives that record.
#[verifier::rlimit(40)]
pub proof fn lemma_line_round_trip(r: RecordView)
    requires
        r.wf(),
    ensures
        parse_line(line_of(r)) == Some(r),
{
    let s = line_of(r);
    let ls = line_start().len() as int;
    let after = escape(r.content) + seq!['"'] + (tags_key() + tags_from(r.tags, 0) + line_end());
    assert(s =~= line_start() + r.timestamp.text() + content_key() + after);
    assert(s.take(ls) =~= line_start());
    assert(s.subrange(ls, ls + TIMESTAMP_LEN) =~= r.timestamp.text());
    assert(s.subrange(ls + TIMESTAMP_LEN, content_start()) =~= content_key());
    assert(s.skip(content_start()) =~= after);
    lemma_timestamp_text_round_trip(r.timestamp);
    let rest = tags_key() + tags_from(r.tags, 0) + line_end();
    lemma_parse_quoted_escape(r.content, rest, Seq::empty());
    assert(Seq::<char>::empty() + r.content =~= r.content);
    assert(rest.take(tags_key().len() as int) =~= tags_key());
    assert(rest.skip(tags_key().len() as int) =~= tags_from(r.tags, 0) + line_end());
    lemma_parse_tags_from(r.tags, 0);
    assert(r.tags.take(0) =~= Seq::<Seq<char>>::empty());
}


proof fn lemma_escape_front(x: Seq<char>)
    requires
        x.len() > 0,
    ensures
        escape(x) == escape_char(x[0]) + escape(x.drop_first()),
{
}

proof fn lemma_parse_quoted_sound(s: Seq<char>, acc: Seq<char>)
    requires
        parse_quoted(s, acc) is Some,
    ensures
        ({
            let (y, rest) = parse_quoted(s, acc)->Some_0;
            &&& y.len() >= acc.len()
            &&& y.take(acc.len() as int) == acc
            &&& s == escape(y.skip(acc.len() as int)) + seq!['"'] + rest
        }),
    decreases s.len(),
{
    let (y, rest) = parse_quoted(s, acc)->Some_0;
    if s[0] == '"' {
        assert(y == acc);
        assert(y.take(acc.len() as int) =~= acc);
        assert(y.skip(acc.len() as int) =~= Seq::<char>::empty());
        assert(s =~= seq!['"'] + rest);
        assert(escape(Seq::<char>::empty()) =~= Seq::<char>::empty());
        assert(escape(y.skip(acc.len() as int)) + seq!['"'] + rest =~= seq!['"'] + rest);
    } else if s[0] == '\\' {
        let c = unescape_char(s[1])->0;
        let a2 = acc.push(c);
        lemma_parse_quoted_sound(s.skip(2), a2);
        let z = y.skip(acc.len() as int);
        assert(y.take(a2.len() as int).take(acc.len() as int) =~= y.take(acc.len() as int));
        assert(y.take(a2.len() as int) == a2);
        assert(y.take(acc.len() as int) =~= acc);
        assert(z[0] == y[acc.len() as int]);
        assert(y[acc.len() as int] == a2[acc.len() as int]);
        assert(z.drop_first() =~= y.skip(a2.len() as int));
        lemma_escape_front(z);
        assert(escape_char(c) =~= s.take(2));
        assert(s =~= s.take(2) + s.skip(2));
    } else {
        let c = s[0];
        let a2 = acc.push(c);
        lemma_parse_quoted_sound(s.drop_first(), a2);
        let z = y.skip(acc.len() as int);
        assert(y.take(a2.len() as int).take(acc.len() as int) =~= y.take(acc.len() as int));
        assert(y.take(a2.len() as int) == a2);
        assert(y.take(acc.len() as int) =~= acc);
        assert(z[0] == y[acc.len() as int]);
        assert(y[acc.len() as int] == a2[acc.len() as int]);
        assert(z.drop_first() =~= y.skip(a2.len() as int));
        lemma_escape_front(z);
        assert(escape_char(c) =~= seq![c]);
        assert(s =~= seq![c] + s.drop_first());
    }
}

proof fn lemma_parse_tags_sound(s: Seq<char>, acc: Seq<Seq<char>>)
    requires
        parse_tags(s, acc) is Some,
    ensures
        ({
            let tags = parse_tags(s, acc)->Some_0;
            &&& tags.len() >= acc.len()
            &&& tags.take(acc.len() as int) == acc
            &&& s == tags_from(tags, acc.len() as int) + line_end()
        }),
    decreases s.len(),
{
    let tags = parse_tags(s, acc)->Some_0;
    if s == line_end() {
        assert(tags.take(acc.len() as int) =~= acc);
        assert(tags_from(tags, acc.len() as int) =~= Seq::<char>::empty());
        assert(s =~= Seq::<char>::empty() + line_end());
    } else {
        let open = tag_open(acc.len() as int);
        let body = s.skip(open.len() as int);
        let (t, rest) = parse_quoted(body, Seq::empty())->Some_0;
        lemma_parse_quoted_sound(body, Seq::empty());
        assert(t.skip(0) =~= t);
        let a2 = acc.push(t);
        lemma_parse_tags_sound(rest, a2);
        assert(tags.take(a2.len() as int).take(acc.len() as int) =~= tags.take(acc.len() as int));
        assert(tags.take(a2.len() as int) == a2);
        assert(tags[acc.len() as int] == a2[acc.len() as int]);
        let k = acc.len() as int;
        assert(tags_from(tags, k) == tag_open(k) + escape(tags[k]) + seq!['"'] + tags_from(tags, k + 1));
        assert(s =~= open + body);
        assert(s =~= tags_from(tags, k) + line_end());
    }
}

/// A line that reads as a record is the line that stores that record.
pub proof fn lemma_parse_line_sound(s: Seq<char>)
    requires
        parse_line(s) is Some,
    ensures
        parse_line(s)->Some_0.wf(),
        line_of(parse_line(s)->Some_0) == s,
{
    let m = parse_line(s)->Some_0;
    let ls = line_start().len() as int;
    let ts = s.subrange(ls, ls + TIMESTAMP_LEN);
    lemma_timestamp_text_sound(ts);
    let body = s.skip(content_start());
    lemma_parse_quoted_sound(body, Seq::empty());
    let (c, rest) = parse_quoted(body, Seq::empty())->Some_0;
    assert(c.skip(0) =~= c);
    let tail = rest.skip(tags_key().len() as int);
    lemma_parse_tags_sound(tail, Seq::empty());
    assert(rest =~= rest.take(tags_key().len() as int) + tail);
    assert(s =~= s.take(ls) + ts + s.subrange(ls + TIMESTAMP_LEN, content_start()) + body);
    assert(line_of(m) =~= s);
}

pub open spec fn has_no_break(s: Seq<char>) -> bool {
    forall|i: int| 0 <= i < s.len() ==> s[i] != '\n'
}

proof fn lemma_escape_no_break(s: Seq<char>)
    ensures
        has_no_break(escape(s)),
    decreases s.len(),
{
    if s.len() > 0 {
        lemma_escape_no_break(s.drop_first());
        let e = escape_char(s[0]);
        assert(has_no_break(e));
        assert(has_no_break(e + escape(s.drop_first())));
    }
}

proof fn lemma_tags_no_break(tags: Seq<Seq<char>>, k: int)
    ensures
        has_no_break(tags_from(tags, k)),
    decreases tags.len() - k,
{
    if 0 <= k < tags.len() {
        lemma_tags_no_break(tags, k + 1);
        lemma_escape_no_break(tags[k]);
        let a = tag_open(k) + escape(tags[k]) + seq!['"'];
        assert(has_no_break(a));
        assert(has_no_break(a + tags_from(tags, k + 1)));
    }
}

/// The line that stores a record holds no line break.
pub proof fn lemma_line_has_no_break(r: RecordView)
    ensures
        has_no_break(line_of(r)),
{
    lemma_escape_no_break(r.content);
    lemma_tags_no_break(r.tags, 0);
    let t = r.timestamp.text();
    assert(has_no_break(t));
    let a = line_start() + t + content_key();
    assert(has_no_break(a));
    let b = a + escape(r.content);
    assert(has_no_break(b));
    let c = b + seq!['"'] + tags_key();
    assert(has_no_break(c));
    let d = c + tags_from(r.tags, 0);
    assert(has_no_break(d));
    assert(has_no_break(d + line_end()));
}

proof fn lemma_parse_line_wf(s: Seq<char>)
    ensures
        parse_line(s) matches Some(m) ==> m.wf(),
{
}

/// Whether `s` is the line that stores some record.
pub open spec fn stores_a_record(s: Seq<char>) -> bool {
    exists|m: RecordView| m.wf() && line_of(m) == s
}

/// A line that does not hold a record.
#[derive(Clone, Copy, Debug, PartialEq, Eq, Structural)]
pub struct DecodeError;

fn line_start_chars() -> (r: Vec<char>)
    ensures
        r@ == line_start(),
{
    let r = vec!['{', '"', 't', 'i', 'm', 'e', 's', 't', 'a', 'm', 'p', '"', ':', '"'];
    assert(r@ =~= line_start());
    r
}

fn content_key_chars() -> (r: Vec<char>)
    ensures
        r@ == content_key(),
{
    let r = vec!['"', ',', '"', 'c', 'o', 'n', 't', 'e', 'n', 't', '"', ':', '"'];
    assert(r@ =~= content_key());
    r
}

fn tags_key_chars() -> (r: Vec<char>)
    ensures
        r@ == tags_key(),
{
    let r = vec![',', '"', 't', 'a', 'g', 's', '"', ':', '['];
    assert(r@ =~= tags_key());
    r
}

fn push_all(out: &mut Vec<char>, s: &Vec<char>)
    ensures
        final(out)@ == old(out)@ + s@,
{
    let mut i: usize = 0;
    while i < s.len()
        invariant
            i <= s@.len(),
            out@ == old(out)@ + s@.take(i as int),
        decreases s@.len() - i,
    {
        out.push(s[i]);
        i += 1;
        assert(out@ =~= old(out)@ + s@.take(i as int));
    }
    assert(s@.take(i as int) =~= s@);
}

fn push_escaped(out: &mut Vec<char>, s: &Vec<char>)
    ensures
        final(out)@ == old(out)@ + escape(s@),
{
    let mut i: usize = 0;
    assert(s@.skip(0) =~= s@);
    assert(out@ =~= old(out)@ + Seq::<char>::empty());
    while i < s.len()
        invariant
            i <= s@.len(),
            out@ + escape(s@.skip(i as int)) == old(out)@ + escape(s@),
        decreases s@.len() - i,
    {
        let c = s[i];
        let ghost before = out@;
        if c == '"' {
            out.push('\\');
            out.push('"');
        } else if c == '\\' {
            out.push('\\');
            out.push('\\');
        } else if c == '\n' {
            out.push('\\');
            out.push('n');
        } else if c == '\r' {
            out.push('\\');
            out.push('r');
        } else if c == '\t' {
            out.push('\\');
            out.push('t');
        } else {
            out.push(c);
        }
        assert(out@ =~= before + escape_char(c));
        assert(s@.skip(i as int).drop_first() =~= s@.skip(i + 1));
        assert(escape(s@.skip(i as int)) == escape_char(c) + escape(s@.skip(i + 1)));
        i += 1;
        assert(out@ + escape(s@.skip(i as int)) =~= before + escape(s@.skip(i - 1)));
    }
    assert(escape(s@.skip(i as int)) =~= Seq::<char>::empty());
    assert(out@ =~= out@ + escape(s@.skip(i as int)));
}

/// The line that stores `r`.
pub fn encode(r: &Record) -> (line: String)
    requires
        r@.wf(),
    ensures
        line@ == line_of(r@),
{
    let mut out = line_start_chars();
    push_timestamp_text(&mut out, &r.timestamp);
    push_all(&mut out, &content_key_chars());
    push_escaped(&mut out, &chars_of(r.content.as_str()));
    out.push('"');
    push_all(&mut out, &tags_key_chars());
    let ghost base = out@;
    let ghost tags = texts(r.tags@);
    let mut i: usize = 0;
    assert(out@ =~= base + Seq::<char>::empty());
    while i < r.tags.len()
        invariant
            i <= r.tags@.len(),
            tags == texts(r.tags@),
            out@ + tags_from(tags, i as int) == base + tags_from(tags, 0),
        decreases r.tags@.len() - i,
    {
        let ghost before = out@;
        if i > 0 {
            out.push(',');
        }
        out.push('"');
        assert(out@ =~= before + tag_open(i as int));
        push_escaped(&mut out, &chars_of(r.tags[i].as_str()));
        out.push('"');
        assert(out@ =~= before + (tag_open(i as int) + escape(tags[i as int]) + seq!['"']));
        i += 1;
        assert(out@ + tags_from(tags, i as int) =~= before + tags_from(tags, i - 1));
    }
    assert(tags_from(tags, i as int) =~= Seq::<char>::empty());
    assert(out@ =~= base + tags_from(tags, 0));
    out.push(']');
    out.push('}');
    assert(out@ =~= line_of(r@));
    string_of(&out)
}

fn unescape_of(c: char) -> (r: Option<char>)
    ensures
        r == unescape_char(c),
{
    if c == '"' {
        Some('"')
    } else if c == '\\' {
        Some('\\')
    } else if c == 'n' {
        Some('\n')
    } else if c == 'r' {
        Some('\r')
    } else if c == 't' {
        Some('\t')
    } else {
        None
    }
}

/// Reads the escaped text that starts at `start` up to its closing quote:
/// the text and the position after the quote.
fn read_quoted(s: &Vec<char>, start: usize) -> (r: Option<(Vec<char>, usize)>)
    requires
        start <= s@.len(),
    ensures
        match r {
            Some((x, j)) => start < j <= s@.len() && parse_quoted(s@.skip(start as int), Seq::empty())
                == Some((x@, s@.skip(j as int))),
            None => parse_quoted(s@.skip(start as int), Seq::empty()) is None,
        },
{
    let n = s.len();
    let mut out: Vec<char> = Vec::new();
    let mut i = start;
    while i < n
        invariant
            n == s@.len(),
            start <= i <= n,
            parse_quoted(s@.skip(i as int), out@) == parse_quoted(s@.skip(start as int), Seq::empty()),
        decreases n - i,
    {
        let c = s[i];
        let ghost t = s@.skip(i as int);
        assert(t[0] == c);
        if c == '"' {
            assert(t.drop_first() =~= s@.skip(i + 1));
            return Some((out, i + 1));
        } else if c == '\\' {
            if i + 1 >= n {
                return None;
            }
            assert(t[1] == s@[i + 1]);
            match unescape_of(s[i + 1]) {
                Some(d) => {
                    out.push(d);
                    assert(t.skip(2) =~= s@.skip(i + 2));
                    i += 2;
                },
                None => {
                    return None;
                },
            }
        } else if c != '\n' && c != '\r' && c != '\t' {
            out.push(c);
            assert(t.drop_first() =~= s@.skip(i + 1));
            i += 1;
        } else {
            return None;
        }
    }
    assert(s@.skip(i as int).len() == 0);
    None
}

/// Reads the tag list that starts at `start`, up to the end of the line.
fn read_tags(s: &Vec<char>, start: usize) -> (r: Option<Vec<String>>)
    requires
        start <= s@.len(),
    ensures
        match r {
            Some(tags) => parse_tags(s@.skip(start as int), Seq::empty()) == Some(texts(tags@)),
            None => parse_tags(s@.skip(start as int), Seq::empty()) is None,
        },
{
    let n = s.len();
    let mut acc: Vec<String> = Vec::new();
    let mut i = start;
    assert(texts(acc@) =~= Seq::<Seq<char>>::empty());
    loop
        invariant
            n == s@.len(),
            start <= i <= n,
            parse_tags(s@.skip(i as int), texts(acc@)) == parse_tags(
                s@.skip(start as int),
                Seq::empty(),
            ),
        decreases n - i,
    {
        let ghost t = s@.skip(i as int);
        if n - i == 2 && s[i] == ']' && s[i + 1] == '}' {
            assert(t =~= line_end());
            return Some(acc);
        }
        assert(t != line_end()) by {
            if t == line_end() {
                assert(t.len() == 2);
                assert(t[0] == s@[i as int]);
                assert(t[1] == s@[i + 1]);
            }
        }
        let ghost open = tag_open(acc@.len() as int);
        let k: usize = if acc.len() == 0 {
            if i < n && s[i] == '"' {
                assert(t.take(1) =~= open);
                1
            } else {
                assert(!(t.len() >= open.len() && t.take(open.len() as int) == open)) by {
                    if t.len() >= 1 {
                        assert(t.take(1)[0] == t[0]);
                    }
                }
                return None;
            }
        } else {
            if n - i >= 2 && s[i] == ',' && s[i + 1] == '"' {
                assert(t.take(2) =~= open);
                2
            } else {
                assert(!(t.len() >= open.len() && t.take(open.len() as int) == open)) by {
                    if t.len() >= 2 && t.take(2) == open {
                        assert(t.take(2)[0] == t[0]);
                        assert(t.take(2)[1] == t[1]);
                    }
                }
                return None;
            }
        };
        assert(t.skip(k as int) =~= s@.skip(i + k));
        match read_quoted(s, i + k) {
            Some((x, j)) => {
                let ghost before = texts(acc@);
                acc.push(string_of(&x));
                assert(texts(acc@) =~= before.push(x@));
                i = j;
            },
            None => {
                return None;
            },
        }
    }
}

/// Reads the record that `line` stores.
pub fn decode(line: &str) -> (r: Result<Record, DecodeError>)
    ensures
        match r {
            Ok(rec) => parse_line(line@) == Some(rec@) && rec@.wf(),
            Err(_) => parse_line(line@) is None,
        },
        r is Ok <==> stores_a_record(line@),
        r matches Ok(rec) ==> line_of(rec@) == line@,
{
    proof {
        if parse_line(line@) is Some {
            lemma_parse_line_sound(line@);
        }
        lemma_parse_line_wf(line@);
        assert forall|m: RecordView| m.wf() && line_of(m) == line@ implies parse_line(line@) == Some(m) by {
            lemma_line_round_trip(m);
        }
        if parse_line(line@) is Some {
            assert(stores_a_record(line@));
        }
    }
    let s = chars_of(line);
    let n = s.len();
    let ls: usize = 14;
    let cs: usize = 52;
    assert(line_start().len() == ls && content_start() == cs);
    if n < cs || !matches_at(&s, 0, &line_start_chars()) || !matches_at(
        &s,
        ls + TIMESTAMP_LEN,
        &content_key_chars(),
    ) {
        assert(n >= cs ==> s@.take(ls as int) =~= s@.subrange(0, ls as int));
        return Err(DecodeError);
    }
    assert(s@.take(ls as int) =~= s@.subrange(0, ls as int));
    let timestamp = match parse_timestamp(&s, ls) {
        Some(t) => t,
        None => {
            return Err(DecodeError);
        },
    };
    let (content, j) = match read_quoted(&s, cs) {
        Some(p) => p,
        None => {
            return Err(DecodeError);
        },
    };
    let ghost rest = s@.skip(j as int);
    let tk = tags_key_chars();
    if !matches_at(&s, j, &tk) {
        assert(!(rest.len() >= tags_key().len() && rest.take(tags_key().len() as int) == tags_key())) by {
            if rest.len() >= tags_key().len() {
                assert(rest.take(tags_key().len() as int) =~= s@.subrange(j as int, j + tk@.len()));
            }
        }
        return Err(DecodeError);
    }
    assert(rest.take(tags_key().len() as int) =~= s@.subrange(j as int, j + tk@.len()));
    assert(rest.skip(tags_key().len() as int) =~= s@.skip(j + tk@.len()));
    match read_tags(&s, j + tk.len()) {
        Some(tags) => Ok(Record { timestamp, content: string_of(&content), tags }),
        None => Err(DecodeError),
    }
}

} // verus!

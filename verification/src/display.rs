use vstd::prelude::*;

use crate::bindings::{
    date_pattern_supported, format_utc_date, html_as_text, html_to_text, terminal_columns,
    unix_now, utc_date_text,
};
use crate::api::{gone, is_gone, kids_of, Item, User};
use crate::text::{
    chars_of, copy_str, decimal, find_from, find_in, lemma_find_from, lines_of, occurs_at,
    push_decimal, push_signed_decimal, push_str, repeat_char, repeated, signed_decimal, spaces,
    string_of, text_lines, tidy_lines, tidy_text,
};

verus! {

// ---------------------------------------------------------------------------
// Terminal width
// ---------------------------------------------------------------------------

/// The width to lay text out in: the terminal's column count, or 80 without a terminal.
pub open spec fn width_or_default_spec(columns: Option<u16>) -> usize {
    match columns {
        Some(w) => w as usize,
        None => 80,
    }
}

/// The width to lay text out in: the terminal's column count, or 80 without a terminal.
pub fn width_or_default(columns: Option<u16>) -> (r: usize)
    ensures
        r == width_or_default_spec(columns),
{
    match columns {
        Some(w) => w as usize,
        None => 80,
    }
}

/// The width of the terminal, or 80 when there is none.
pub fn term_width() -> (r: usize)
    ensures
        exists|columns: Option<u16>| r == width_or_default_spec(columns),
{
    let columns = terminal_columns();
    width_or_default(columns)
}

// ---------------------------------------------------------------------------
// Relative times
// ---------------------------------------------------------------------------

/// A count followed by a unit and " ago", as in `5m ago`.
pub open spec fn ago(n: nat, suffix: Seq<char>) -> Seq<char> {
    decimal(n) + suffix
}

/// How long ago `timestamp` was at `now` (both in seconds since the Unix epoch): "just now"
/// for a time not in the past, then seconds, minutes, hours and days, and past 30 days the
/// month and day of `timestamp` (nothing when that date is out of range).
pub open spec fn time_ago_text(timestamp: u64, now: u64) -> Seq<char> {
    if timestamp >= now {
        "just now"@
    } else {
        let diff = (now - timestamp) as nat;
        if diff < 60 {
            ago(diff, "s ago"@)
        } else if diff < 3600 {
            ago(diff / 60, "m ago"@)
        } else if diff < 86400 {
            ago(diff / 3600, "h ago"@)
        } else if diff < 2592000 {
            ago(diff / 86400, "d ago"@)
        } else {
            match utc_date_text(timestamp, "%b %d"@) {
                Some(t) => t,
                None => Seq::empty(),
            }
        }
    }
}

/// How long ago `timestamp` was at the time `now`.
pub fn time_ago_at(timestamp: u64, now: u64) -> (r: String)
    ensures
        r@ == time_ago_text(timestamp, now),
{
    if timestamp >= now {
        return copy_str("just now");
    }
    let diff = now - timestamp;
    let mut r = String::new();
    if diff < 60 {
        push_decimal(&mut r, diff);
        push_str(&mut r, "s ago");
    } else if diff < 3600 {
        push_decimal(&mut r, diff / 60);
        push_str(&mut r, "m ago");
    } else if diff < 86400 {
        push_decimal(&mut r, diff / 3600);
        push_str(&mut r, "h ago");
    } else if diff < 2592000 {
        push_decimal(&mut r, diff / 86400);
        push_str(&mut r, "d ago");
    } else {
        assert(date_pattern_supported("%b %d"@));
        match format_utc_date(timestamp, "%b %d") {
            Some(t) => {
                return t;
            },
            None => {},
        }
    }
    assert(r@ =~= time_ago_text(timestamp, now));
    r
}

/// How long ago `timestamp` was, by the system clock.
pub fn time_ago(timestamp: u64) -> (r: String)
    ensures
        exists|now: u64| r@ == time_ago_text(timestamp, now),
{
    let now = unix_now();
    time_ago_at(timestamp, now)
}

// ---------------------------------------------------------------------------
// HTML text
// ---------------------------------------------------------------------------

/// HTML rendered as plain text wrapped to `width`, or the HTML itself where rendering fails,
/// then cleaned up line by line.
pub open spec fn rendered_html(html: Seq<char>, width: usize) -> Seq<char> {
    tidy_text(
        match html_as_text(html, width) {
            Some(t) => t,
            None => html,
        },
    )
}

/// Renders HTML as plain text wrapped to `width` columns, keeping the HTML as it is where
/// rendering fails, then trims every line, keeps at most one blank line in a row and trims the
/// whole.
pub fn render_html(html: &str, width: usize) -> (r: String)
    ensures
        r@ == rendered_html(html@, width),
{
    let text = match html_to_text(html, width) {
        Ok(t) => t,
        Err(_) => copy_str(html),
    };
    tidy_lines(text.as_str())
}

// ---------------------------------------------------------------------------
// Domains
// ---------------------------------------------------------------------------

/// The host of a story's address: what follows the first "://" (or the whole address
/// without one) up to the next "/", without a leading "www.".
pub open spec fn domain_of(url: Seq<char>) -> Seq<char> {
    let start = match find_from(url, "://"@, 0) {
        Some(i) => i + 3,
        None => 0,
    };
    let rest = url.subrange(start, url.len() as int);
    let end = match find_from(rest, "/"@, 0) {
        Some(j) => j,
        None => rest.len() as int,
    };
    let host = rest.subrange(0, end);
    if host.len() >= 4 && host.subrange(0, 4) == "www."@ {
        host.subrange(4, host.len() as int)
    } else {
        host
    }
}

/// The domain shown next to a story: that of its address, or nothing without one.
pub open spec fn story_domain_spec(url: Option<String>) -> Seq<char> {
    match url {
        Some(u) => domain_of(u@),
        None => Seq::empty(),
    }
}

/// The domain shown next to a story's title.
pub fn story_domain(url: &Option<String>) -> (r: String)
    ensures
        r@ == story_domain_spec(*url),
{
    match url {
        None => String::new(),
        Some(u) => {
            let v = chars_of(u.as_str());
            proof {
                reveal_strlit("://");
                reveal_strlit("/");
                reveal_strlit("www.");
            }
            let proto = chars_of("://");
            let slash = chars_of("/");
            let found = find_in(&v, &proto, 0);
            proof {
                lemma_find_from(v@, proto@, 0);
                assert(proto@.len() == 3);
            }
            let start: usize = match found {
                Some(i) => {
                    assert(find_from(v@, proto@, 0) == Some(i as int));
                    assert(i + 3 <= v@.len());
                    assert(v@.len() == v.len());
                    i + 3
                },
                None => 0,
            };
            let rest = string_of(&v, start, v.len());
            let rv = chars_of(rest.as_str());
            let end: usize = match find_in(&rv, &slash, 0) {
                Some(j) => {
                    proof {
                        lemma_find_from(rv@, slash@, 0);
                    }
                    j
                },
                None => rv.len(),
            };
            let www = chars_of("www.");
            let mut has_www = end >= 4;
            if has_www {
                let mut k: usize = 0;
                while k < 4
                    invariant
                        4 <= end <= rv@.len(),
                        www@ == "www."@,
                        www@.len() == 4,
                        k <= 4,
                        has_www == (forall|t: int| 0 <= t < k ==> rv@[t] == www@[t]),
                    decreases 4 - k,
                {
                    if rv[k] != www[k] {
                        has_www = false;
                    }
                    k = k + 1;
                }
            }
            let ghost host = rv@.subrange(0, end as int);
            proof {
                if end >= 4 {
                    if has_www {
                        assert(host.subrange(0, 4) =~= "www."@);
                    } else if host.subrange(0, 4) == "www."@ {
                        let t = choose|t: int| 0 <= t < 4 && rv@[t] != www@[t];
                        assert(host.subrange(0, 4)[t] == rv@[t]);
                    }
                }
            }
            if has_www {
                let r = string_of(&rv, 4, end);
                assert(r@ =~= host.subrange(4, host.len() as int));
                r
            } else {
                let r = string_of(&rv, 0, end);
                r
            }
        },
    }
}

/// The domain of an address never holds a "/", and is a piece of the address.
pub proof fn lemma_domain_shape(url: Seq<char>)
    ensures
        forall|k: int| 0 <= k < domain_of(url).len() ==> domain_of(url)[k] != '/',
        exists|a: int| 0 <= a && a + domain_of(url).len() <= url.len() && #[trigger] url.subrange(a, a + domain_of(url).len()) == domain_of(url),
{
    let p = "://"@;
    let sl = "/"@;
    lemma_find_from(url, p, 0);
    let start = match find_from(url, p, 0) {
        Some(i) => i + 3,
        None => 0,
    };
    assert(p.len() == 3) by { reveal_strlit("://"); }
    assert(sl.len() == 1 && sl[0] == '/') by { reveal_strlit("/"); }
    let rest = url.subrange(start, url.len() as int);
    lemma_find_from(rest, sl, 0);
    let end = match find_from(rest, sl, 0) {
        Some(j) => j,
        None => rest.len() as int,
    };
    let host = rest.subrange(0, end);
    assert forall|k: int| 0 <= k < host.len() implies host[k] != '/' by {
        if host[k] == '/' {
            assert(rest.subrange(k, k + 1) =~= sl);
            assert(occurs_at(rest, sl, k));
        }
    }
    let d = domain_of(url);
    if host.len() >= 4 && host.subrange(0, 4) == "www."@ {
        assert forall|k: int| 0 <= k < d.len() implies d[k] != '/' by {
            assert(d[k] == host[k + 4]);
        }
        assert(url.subrange(start + 4, start + 4 + d.len()) =~= d);
    } else {
        assert(url.subrange(start, start + d.len()) =~= d);
    }
}

// ---------------------------------------------------------------------------
// Story summaries
// ---------------------------------------------------------------------------

/// The text of an optional field, or `default` without one.
pub open spec fn text_or(field: Option<String>, default: Seq<char>) -> Seq<char> {
    match field {
        Some(t) => t@,
        None => default,
    }
}

/// The relative time shown for an optional timestamp: nothing without one.
pub open spec fn time_label(time: Option<u64>, now: u64) -> Seq<char> {
    match time {
        Some(t) => time_ago_text(t, now),
        None => Seq::empty(),
    }
}

/// The points shown for an optional score: 0 without one.
pub open spec fn points_label(score: Option<i64>) -> Seq<char> {
    match score {
        Some(p) => signed_decimal(p as int) + " points"@,
        None => decimal(0) + " points"@,
    }
}

/// The comment count shown for an optional count: 0 without one.
pub open spec fn count_label(count: Option<u64>) -> Seq<char> {
    match count {
        Some(c) => decimal(c as nat),
        None => decimal(0),
    }
}

/// The parts of a story's heading, ready to print.
pub struct StorySummary {
    /// The title, or "(no title)".
    pub title: String,
    /// The address, where the story has one.
    pub url: Option<String>,
    /// The score, as "N points".
    pub points: String,
    /// The author, or "unknown".
    pub by: String,
    /// How long ago the story was posted, or nothing without a time.
    pub time: String,
    /// The number of comments.
    pub comments: String,
}

/// `summary` is the heading of `story` at the time `now`.
pub open spec fn is_summary_of(summary: StorySummary, story: Item, now: u64) -> bool {
    &&& summary.title@ == text_or(story.title, "(no title)"@)
    &&& summary.url == story.url
    &&& summary.points@ == points_label(story.score)
    &&& summary.by@ == text_or(story.by, "unknown"@)
    &&& summary.time@ == time_label(story.time, now)
    &&& summary.comments@ == count_label(story.descendants)
}

fn text_or_default(field: &Option<String>, default: &str) -> (r: String)
    ensures
        r@ == text_or(*field, default@),
{
    match field {
        Some(t) => t.clone(),
        None => copy_str(default),
    }
}

fn copy_option(field: &Option<String>) -> (r: Option<String>)
    ensures
        r == *field,
{
    match field {
        Some(t) => Some(t.clone()),
        None => None,
    }
}

fn time_label_at(time: Option<u64>, now: u64) -> (r: String)
    ensures
        r@ == time_label(time, now),
{
    match time {
        Some(t) => time_ago_at(t, now),
        None => String::new(),
    }
}

/// The heading of `story` at the time `now`.
pub fn story_summary_at(story: &Item, now: u64) -> (r: StorySummary)
    ensures
        is_summary_of(r, *story, now),
{
    let mut points = String::new();
    match story.score {
        Some(p) => push_signed_decimal(&mut points, p),
        None => push_decimal(&mut points, 0),
    }
    push_str(&mut points, " points");
    let mut comments = String::new();
    match story.descendants {
        Some(c) => push_decimal(&mut comments, c),
        None => push_decimal(&mut comments, 0),
    }
    let r = StorySummary {
        title: text_or_default(&story.title, "(no title)"),
        url: copy_option(&story.url),
        points,
        by: text_or_default(&story.by, "unknown"),
        time: time_label_at(story.time, now),
        comments,
    };
    assert(r.points@ =~= points_label(story.score));
    assert(r.comments@ =~= count_label(story.descendants));
    r
}

/// One entry of a story list, ready to print.
pub struct StoryLine {
    /// The position in the list, as "N.".
    pub number: String,
    pub summary: StorySummary,
    /// The domain of the address, or nothing.
    pub domain: String,
    /// The story's id.
    pub id: String,
}

/// `line` is the entry for `story` at position `n` at the time `now`.
pub open spec fn is_line_of(line: StoryLine, story: Item, n: nat, now: u64) -> bool {
    &&& line.number@ == decimal(n) + "."@
    &&& is_summary_of(line.summary, story, now)
    &&& line.domain@ == story_domain_spec(story.url)
    &&& line.id@ == decimal(story.id as nat)
}

/// `lines` are the entries for `stories`, numbered from `start`, at the time `now`.
pub open spec fn are_lines_of(lines: Seq<StoryLine>, stories: Seq<Item>, start: nat, now: u64) -> bool {
    &&& lines.len() == stories.len()
    &&& forall|i: int| 0 <= i < stories.len() ==> is_line_of(#[trigger] lines[i], stories[i], (start + i) as nat, now)
}

/// The entries of a story list numbered from `start`, with times relative to `now`.
pub fn story_lines_at(stories: &[Item], start: usize, now: u64) -> (r: Vec<StoryLine>)
    requires
        stories@.len() == 0 || start <= usize::MAX - (stories@.len() - 1),
    ensures
        are_lines_of(r@, stories@, start as nat, now),
{
    let mut r: Vec<StoryLine> = Vec::new();
    let mut i: usize = 0;
    while i < stories.len()
        invariant
            stories@.len() == 0 || start <= usize::MAX - (stories@.len() - 1),
            i <= stories@.len(),
            r@.len() == i,
            forall|k: int| 0 <= k < i ==> is_line_of(#[trigger] r@[k], stories@[k], (start + k) as nat, now),
        decreases stories@.len() - i,
    {
        let story = &stories[i];
        let mut number = String::new();
        push_decimal(&mut number, (start + i) as u64);
        push_str(&mut number, ".");
        let mut id = String::new();
        push_decimal(&mut id, story.id);
        let line = StoryLine {
            number,
            summary: story_summary_at(story, now),
            domain: story_domain(&story.url),
            id,
        };
        assert(line.number@ =~= decimal((start + i) as nat) + "."@);
        assert(line.id@ =~= decimal(story.id as nat));
        r.push(line);
        i = i + 1;
    }
    r
}

/// The entries of a story list numbered from `start`, with times relative to the system clock.
pub fn story_lines(stories: &[Item], start: usize) -> (r: Vec<StoryLine>)
    requires
        stories@.len() == 0 || start <= usize::MAX - (stories@.len() - 1),
    ensures
        exists|now: u64| are_lines_of(r@, stories@, start as nat, now),
{
    let now = unix_now();
    story_lines_at(stories, start, now)
}

// ---------------------------------------------------------------------------
// Comment threads
// ---------------------------------------------------------------------------

/// One printed line of a comment thread.
pub enum ThreadLine {
    /// The heading of a comment: its indentation, author and age.
    Header { indent: String, by: String, time: String },
    /// One line of a comment's text, indentation included.
    Body(String),
    /// The blank line that closes a top-level comment and its replies.
    Gap,
}

/// A thread line as characters.
pub enum ThreadLineView {
    Header(Seq<char>, Seq<char>, Seq<char>),
    Body(Seq<char>),
    Gap,
}

impl View for ThreadLine {
    type V = ThreadLineView;

    open spec fn view(&self) -> ThreadLineView {
        match self {
            ThreadLine::Header { indent, by, time } => ThreadLineView::Header(indent@, by@, time@),
            ThreadLine::Body(t) => ThreadLineView::Body(t@),
            ThreadLine::Gap => ThreadLineView::Gap,
        }
    }
}

/// Thread lines as characters.
pub open spec fn thread_view(lines: Seq<ThreadLine>) -> Seq<ThreadLineView> {
    lines.map_values(|l: ThreadLine| l@)
}

/// The position of the first item with id `id` at or after `j`.
pub open spec fn position_of(all: Seq<Item>, id: u64, j: int) -> Option<int>
    decreases all.len() - j,
{
    if j < 0 || j >= all.len() {
        None
    } else if all[j].id == id {
        Some(j)
    } else {
        position_of(all, id, j + 1)
    }
}

/// `width - used`, or 0 when `used` is wider.
pub open spec fn width_left(width: usize, used: nat) -> usize {
    if used <= width {
        (width - used) as usize
    } else {
        0
    }
}

/// The text lines of a comment at `depth`: its text rendered to what is left of `width` after
/// the indentation, each line indented; nothing for a comment without text.
pub open spec fn body_lines(c: Item, depth: nat, width: usize) -> Seq<ThreadLineView> {
    match c.text {
        Some(t) => if t@.len() > 0 {
            text_lines(rendered_html(t@, width_left(width, 2 * depth))).map_values(
                |l: Seq<char>| ThreadLineView::Body(spaces(2 * depth) + l),
            )
        } else {
            Seq::empty()
        },
        None => Seq::empty(),
    }
}

/// The lines of comment `c` at `depth` and its replies, found among `all`: nothing for a
/// dead or deleted comment; else its heading, its text, the replies one level deeper, and
/// for a top-level comment a closing blank line. `budget` bounds the depth of replies
/// shown below `c`; a reply beyond it is left out.
pub open spec fn comment_lines(c: Item, all: Seq<Item>, depth: nat, budget: nat, width: usize, now: u64) -> Seq<ThreadLineView>
    decreases budget, 0nat,
{
    if budget == 0 || is_gone(c) {
        Seq::empty()
    } else {
        let head = ThreadLineView::Header(
            spaces(2 * depth),
            text_or(c.by, "unknown"@),
            time_label(c.time, now),
        );
        let replies = reply_lines(kids_of(c), 0, all, depth + 1, (budget - 1) as nat, width, now);
        seq![head] + body_lines(c, depth, width) + replies + (if depth == 0 {
            seq![ThreadLineView::Gap]
        } else {
            Seq::empty()
        })
    }
}

/// The lines of the replies `kids[i..]` at `depth`: for each id, the first comment of `all`
/// with that id and its replies; an id without a comment shows nothing.
pub open spec fn reply_lines(kids: Seq<u64>, i: int, all: Seq<Item>, depth: nat, budget: nat, width: usize, now: u64) -> Seq<ThreadLineView>
    decreases budget, kids.len() + 1 - i,
{
    if i < 0 || i >= kids.len() {
        Seq::empty()
    } else {
        let here = match position_of(all, kids[i], 0) {
            Some(j) => comment_lines(all[j], all, depth, budget, width, now),
            None => Seq::empty(),
        };
        here + reply_lines(kids, i + 1, all, depth, budget, width, now)
    }
}

fn find_by_id(all: &[Item], id: u64) -> (r: Option<usize>)
    ensures
        match r {
            Some(j) => position_of(all@, id, 0) == Some(j as int) && j < all@.len(),
            None => position_of(all@, id, 0) is None,
        },
{
    let mut j: usize = 0;
    while j < all.len()
        invariant
            j <= all@.len(),
            position_of(all@, id, 0) == position_of(all@, id, j as int),
        decreases all@.len() - j,
    {
        if all[j].id == id {
            return Some(j);
        }
        j = j + 1;
    }
    None
}

fn spaces_string(n: usize) -> (r: String)
    ensures
        r@ == spaces(n as nat),
{
    let r = repeat_char(' ', n);
    assert(r@ =~= spaces(n as nat));
    r
}

fn push_body_lines(out: &mut Vec<ThreadLine>, c: &Item, depth: usize, width: usize)
    requires
        depth <= usize::MAX / 2,
    ensures
        thread_view(final(out)@) == thread_view(old(out)@) + body_lines(*c, depth as nat, width),
{
    let ghost start = thread_view(out@);
    match &c.text {
        Some(t) => {
            if t.as_str().is_empty() {
                assert(t@.len() == 0);
                assert(thread_view(out@) =~= start + body_lines(*c, depth as nat, width));
                return;
            }
            assert(t@.len() > 0);
            let used = depth * 2;
            let avail = if used <= width {
                width - used
            } else {
                0
            };
            let rendered = render_html(t.as_str(), avail);
            let lines = lines_of(rendered.as_str());
            let ghost want = text_lines(rendered@);
            let mut k: usize = 0;
            while k < lines.len()
                invariant
                    k <= lines@.len(),
                    lines@.len() == want.len(),
                    forall|q: int| 0 <= q < lines@.len() ==> #[trigger] lines@[q]@ == want[q],
                    depth <= usize::MAX / 2,
                    thread_view(out@) == start + want.take(k as int).map_values(
                        |l: Seq<char>| ThreadLineView::Body(spaces(2 * depth as nat) + l),
                    ),
                decreases lines@.len() - k,
            {
                let mut text = spaces_string(depth * 2);
                push_str(&mut text, lines[k].as_str());
                let ghost before = out@;
                out.push(ThreadLine::Body(text));
                assert(thread_view(out@) =~= thread_view(before).push(ThreadLineView::Body(spaces(2 * depth as nat) + want[k as int])));
                assert(want.take(k + 1).map_values(|l: Seq<char>| ThreadLineView::Body(spaces(2 * depth as nat) + l)) =~= want.take(k as int).map_values(
                    |l: Seq<char>| ThreadLineView::Body(spaces(2 * depth as nat) + l),
                ).push(ThreadLineView::Body(spaces(2 * depth as nat) + want[k as int])));
                k = k + 1;
            }
            assert(want.take(lines@.len() as int) =~= want);
        },
        None => {
            assert(thread_view(out@) =~= start + body_lines(*c, depth as nat, width));
        },
    }
}

fn push_comment_lines(
    out: &mut Vec<ThreadLine>,
    c: &Item,
    all: &[Item],
    depth: usize,
    budget: usize,
    width: usize,
    now: u64,
)
    requires
        budget > 0 && !is_gone(*c) ==> depth + budget <= usize::MAX / 2,
    ensures
        thread_view(final(out)@) == thread_view(old(out)@) + comment_lines(*c, all@, depth as nat, budget as nat, width, now),
    decreases budget, 0nat,
{
    let ghost start = thread_view(out@);
    if budget == 0 || gone(c) {
        assert(thread_view(out@) =~= start + comment_lines(*c, all@, depth as nat, budget as nat, width, now));
        return;
    }
    let indent = spaces_string(depth * 2);
    let by = text_or_default(&c.by, "unknown");
    let time = time_label_at(c.time, now);
    let ghost head = ThreadLineView::Header(indent@, by@, time@);
    out.push(ThreadLine::Header { indent, by, time });
    assert(thread_view(out@) =~= start + seq![head]);
    push_body_lines(out, c, depth, width);
    let ghost mid = thread_view(out@);
    let empty: Vec<u64> = Vec::new();
    let kids = match &c.kids {
        Some(k) => k,
        None => &empty,
    };
    assert(kids@ == kids_of(*c));
    push_reply_lines(out, kids, all, depth + 1, budget - 1, width, now);
    let ghost replies = reply_lines(kids_of(*c), 0, all@, (depth + 1) as nat, (budget - 1) as nat, width, now);
    assert(thread_view(out@) == mid + replies);
    assert(head == ThreadLineView::Header(spaces(2 * depth as nat), text_or(c.by, "unknown"@), time_label(c.time, now)));
    assert(mid == start + seq![head] + body_lines(*c, depth as nat, width));
    let ghost before_gap = thread_view(out@);
    if depth == 0 {
        out.push(ThreadLine::Gap);
        assert(thread_view(out@) =~= before_gap.push(ThreadLineView::Gap));
    }
    assert(thread_view(out@) =~= start + comment_lines(*c, all@, depth as nat, budget as nat, width, now));
}

fn push_reply_lines(
    out: &mut Vec<ThreadLine>,
    kids: &Vec<u64>,
    all: &[Item],
    depth: usize,
    budget: usize,
    width: usize,
    now: u64,
)
    requires
        budget > 0 ==> depth + budget <= usize::MAX / 2,
    ensures
        thread_view(final(out)@) == thread_view(old(out)@) + reply_lines(kids@, 0, all@, depth as nat, budget as nat, width, now),
    decreases budget, 1nat,
{
    let ghost start = thread_view(out@);
    let mut i: usize = 0;
    while i < kids.len()
        invariant
            i <= kids@.len(),
            budget > 0 ==> depth + budget <= usize::MAX / 2,
            thread_view(out@) + reply_lines(kids@, i as int, all@, depth as nat, budget as nat, width, now)
                == start + reply_lines(kids@, 0, all@, depth as nat, budget as nat, width, now),
        decreases kids@.len() - i,
    {
        let ghost before = thread_view(out@);
        match find_by_id(all, kids[i]) {
            Some(j) => {
                push_comment_lines(out, &all[j], all, depth, budget, width, now);
            },
            None => {},
        }
        assert(thread_view(out@) + reply_lines(kids@, i + 1, all@, depth as nat, budget as nat, width, now)
            =~= before + reply_lines(kids@, i as int, all@, depth as nat, budget as nat, width, now));
        i = i + 1;
    }
    assert(thread_view(out@) =~= thread_view(out@) + reply_lines(kids@, i as int, all@, depth as nat, budget as nat, width, now));
}

/// The printed lines of comment `c` at `depth` and its replies found among `all`, laid out in
/// `width` columns with times relative to `now`. The depth bound is one more than the number
/// of comments, which a thread without cycles never reaches.
pub fn comment_tree_lines_at(c: &Item, all: &[Item], depth: usize, width: usize, now: u64) -> (r: Vec<ThreadLine>)
    requires
        !is_gone(*c) ==> depth + all@.len() < usize::MAX / 2,
    ensures
        thread_view(r@) == comment_lines(*c, all@, depth as nat, all@.len() + 1, width, now),
{
    let mut out: Vec<ThreadLine> = Vec::new();
    if gone(c) {
        assert(thread_view(out@) =~= comment_lines(*c, all@, depth as nat, all@.len() + 1, width, now));
        return out;
    }
    push_comment_lines(&mut out, c, all, depth, all.len() + 1, width, now);
    assert(thread_view(out@) =~= Seq::<ThreadLineView>::empty() + comment_lines(*c, all@, depth as nat, all@.len() + 1, width, now));
    out
}

/// The printed lines of comment `c` at `depth` and its replies found among `all`, laid out in
/// `width` columns with times relative to the system clock.
pub fn comment_tree_lines(c: &Item, all: &[Item], depth: usize, width: usize) -> (r: Vec<ThreadLine>)
    requires
        !is_gone(*c) ==> depth + all@.len() < usize::MAX / 2,
    ensures
        exists|now: u64| thread_view(r@) == #[trigger] comment_lines(*c, all@, depth as nat, all@.len() + 1, width, now),
{
    let now = unix_now();
    comment_tree_lines_at(c, all, depth, width, now)
}

/// The thread below a story: its top-level comments in the story's order, each with its
/// replies, found among `comments`, with the same depth bound.
pub open spec fn story_thread(story: Item, comments: Seq<Item>, width: usize, now: u64) -> Seq<ThreadLineView> {
    reply_lines(kids_of(story), 0, comments, 0, comments.len() + 1, width, now)
}

/// The printed lines of the comment thread below `story`, laid out in `width` columns with
/// times relative to `now`.
pub fn thread_lines_at(story: &Item, comments: &[Item], width: usize, now: u64) -> (r: Vec<ThreadLine>)
    requires
        comments@.len() < usize::MAX / 2,
    ensures
        thread_view(r@) == story_thread(*story, comments@, width, now),
{
    let mut out: Vec<ThreadLine> = Vec::new();
    let empty: Vec<u64> = Vec::new();
    let kids = match &story.kids {
        Some(k) => k,
        None => &empty,
    };
    assert(kids@ == kids_of(*story));
    push_reply_lines(&mut out, kids, comments, 0, comments.len() + 1, width, now);
    assert(thread_view(out@) =~= Seq::<ThreadLineView>::empty() + story_thread(*story, comments@, width, now));
    out
}

// ---------------------------------------------------------------------------
// Story pages
// ---------------------------------------------------------------------------

/// The characters of an optional string.
pub open spec fn opt_view(o: Option<String>) -> Option<Seq<char>> {
    match o {
        Some(t) => Some(t@),
        None => None,
    }
}

/// The rendered text of a story, where it has non-empty text.
pub open spec fn story_body(story: Item, width: usize) -> Option<Seq<char>> {
    match story.text {
        Some(t) => if t@.len() > 0 {
            Some(rendered_html(t@, width))
        } else {
            None
        },
        None => None,
    }
}

/// A story's page, ready to print.
pub struct StoryDetail {
    pub summary: StorySummary,
    /// The story's own text, rendered, where it has any.
    pub body: Option<String>,
    /// The rule of dashes above the comments, where there are comments.
    pub rule: Option<String>,
    /// The comment thread.
    pub thread: Vec<ThreadLine>,
}

/// `d` is the page of `story` with `comments`, laid out in `width` columns at the time `now`.
pub open spec fn is_detail_of(d: StoryDetail, story: Item, comments: Seq<Item>, width: usize, now: u64) -> bool {
    &&& is_summary_of(d.summary, story, now)
    &&& opt_view(d.body) == story_body(story, width)
    &&& comments.len() == 0 ==> d.rule is None && d.thread@.len() == 0
    &&& comments.len() > 0 ==> opt_view(d.rule) == Some(repeated('-', width as nat))
        && thread_view(d.thread@) == story_thread(story, comments, width, now)
}

/// The page of `story` with its `comments`, laid out in `width` columns at the time `now`.
pub fn story_detail_at(story: &Item, comments: &[Item], width: usize, now: u64) -> (r: StoryDetail)
    requires
        comments@.len() < usize::MAX / 2,
    ensures
        is_detail_of(r, *story, comments@, width, now),
{
    let body = match &story.text {
        Some(t) => if t.as_str().is_empty() {
            None
        } else {
            Some(render_html(t.as_str(), width))
        },
        None => None,
    };
    let (rule, thread) = if comments.len() == 0 {
        (None, Vec::new())
    } else {
        (Some(repeat_char('-', width)), thread_lines_at(story, comments, width, now))
    };
    StoryDetail { summary: story_summary_at(story, now), body, rule, thread }
}

/// The page of `story` with its `comments`, laid out in `width` columns, with times relative
/// to the system clock.
pub fn story_detail(story: &Item, comments: &[Item], width: usize) -> (r: StoryDetail)
    requires
        comments@.len() < usize::MAX / 2,
    ensures
        exists|now: u64| is_detail_of(r, *story, comments@, width, now),
{
    let now = unix_now();
    story_detail_at(story, comments, width, now)
}

// ---------------------------------------------------------------------------
// User profiles
// ---------------------------------------------------------------------------

/// A user's profile, ready to print.
pub struct UserProfile {
    pub id: String,
    /// The karma, where the user has it.
    pub karma: Option<String>,
    /// The creation date as year-month-day, where it is in range.
    pub created: Option<String>,
    /// The rendered "about" text, where it is not empty.
    pub about: Option<String>,
}

/// `p` is the profile of `user` with its "about" text laid out in `width` columns.
pub open spec fn is_profile_of(p: UserProfile, user: User, width: usize) -> bool {
    &&& p.id@ == user.id@
    &&& opt_view(p.karma) == match user.karma {
        Some(k) => Some(signed_decimal(k as int)),
        None => None::<Seq<char>>,
    }
    &&& opt_view(p.created) == utc_date_text(user.created, "%Y-%m-%d"@)
    &&& opt_view(p.about) == match user.about {
        Some(a) => if a@.len() > 0 {
            Some(rendered_html(a@, width))
        } else {
            None
        },
        None => None,
    }
}

/// The profile of `user`, with its "about" text laid out in `width` columns.
pub fn user_profile(user: &User, width: usize) -> (r: UserProfile)
    ensures
        is_profile_of(r, *user, width),
{
    let karma = match user.karma {
        Some(k) => {
            let mut s = String::new();
            push_signed_decimal(&mut s, k);
            assert(s@ =~= signed_decimal(k as int));
            Some(s)
        },
        None => None,
    };
    assert(date_pattern_supported("%Y-%m-%d"@));
    let created = format_utc_date(user.created, "%Y-%m-%d");
    let about = match &user.about {
        Some(a) => if a.as_str().is_empty() {
            None
        } else {
            Some(render_html(a.as_str(), width))
        },
        None => None,
    };
    UserProfile { id: user.id.clone(), karma, created, about }
}

// ---------------------------------------------------------------------------
// JSON output
// ---------------------------------------------------------------------------

/// A JSON value that is not a collection.
pub enum JsonScalar {
    Unsigned(u64),
    Signed(i64),
    Text(String),
}

/// A JSON scalar with its text as characters.
pub enum JsonScalarView {
    Unsigned(u64),
    Signed(i64),
    Text(Seq<char>),
}

/// One member of a JSON object.
pub struct JsonField {
    pub key: String,
    pub value: JsonScalar,
}

impl View for JsonField {
    type V = (Seq<char>, JsonScalarView);

    open spec fn view(&self) -> (Seq<char>, JsonScalarView) {
        (
            self.key@,
            match self.value {
                JsonScalar::Unsigned(n) => JsonScalarView::Unsigned(n),
                JsonScalar::Signed(n) => JsonScalarView::Signed(n),
                JsonScalar::Text(t) => JsonScalarView::Text(t@),
            },
        )
    }
}

/// The members of a JSON object, as characters.
pub open spec fn fields_view(fields: Seq<JsonField>) -> Seq<(Seq<char>, JsonScalarView)> {
    fields.map_values(|f: JsonField| f@)
}

/// A text member, present only where the value is.
pub open spec fn text_member(key: Seq<char>, v: Option<String>) -> Seq<(Seq<char>, JsonScalarView)> {
    match v {
        Some(t) => seq![(key, JsonScalarView::Text(t@))],
        None => Seq::empty(),
    }
}

/// An unsigned member, present only where the value is.
pub open spec fn unsigned_member(key: Seq<char>, v: Option<u64>) -> Seq<(Seq<char>, JsonScalarView)> {
    match v {
        Some(n) => seq![(key, JsonScalarView::Unsigned(n))],
        None => Seq::empty(),
    }
}

/// A signed member, present only where the value is.
pub open spec fn signed_member(key: Seq<char>, v: Option<i64>) -> Seq<(Seq<char>, JsonScalarView)> {
    match v {
        Some(n) => seq![(key, JsonScalarView::Signed(n))],
        None => Seq::empty(),
    }
}

/// The members written for a story in a list: its id, and title, address, author, score,
/// time and comment count where it has them.
pub open spec fn story_members(story: Item) -> Seq<(Seq<char>, JsonScalarView)> {
    seq![("id"@, JsonScalarView::Unsigned(story.id))] + text_member("title"@, story.title)
        + text_member("url"@, story.url) + text_member("by"@, story.by) + signed_member(
        "score"@,
        story.score,
    ) + unsigned_member("time"@, story.time) + unsigned_member("descendants"@, story.descendants)
}

/// The members written for a comment: its id, and author, text and time where it has them.
pub open spec fn comment_members(c: Item) -> Seq<(Seq<char>, JsonScalarView)> {
    seq![("id"@, JsonScalarView::Unsigned(c.id))] + text_member("by"@, c.by) + text_member(
        "text"@,
        c.text,
    ) + unsigned_member("time"@, c.time)
}

/// The members written for a user: id, karma where known, creation time, and "about" where
/// known.
pub open spec fn user_members(user: User) -> Seq<(Seq<char>, JsonScalarView)> {
    seq![("id"@, JsonScalarView::Text(user.id@))] + signed_member("karma"@, user.karma) + seq![
        ("created"@, JsonScalarView::Unsigned(user.created)),
    ] + text_member("about"@, user.about)
}

fn push_text_member(out: &mut Vec<JsonField>, key: &str, v: &Option<String>)
    ensures
        fields_view(final(out)@) == fields_view(old(out)@) + text_member(key@, *v),
{
    match v {
        Some(t) => {
            out.push(JsonField { key: copy_str(key), value: JsonScalar::Text(t.clone()) });
        },
        None => {},
    }
    assert(fields_view(out@) =~= fields_view(old(out)@) + text_member(key@, *v));
}

fn push_unsigned_member(out: &mut Vec<JsonField>, key: &str, v: Option<u64>)
    ensures
        fields_view(final(out)@) == fields_view(old(out)@) + unsigned_member(key@, v),
{
    match v {
        Some(n) => {
            out.push(JsonField { key: copy_str(key), value: JsonScalar::Unsigned(n) });
        },
        None => {},
    }
    assert(fields_view(out@) =~= fields_view(old(out)@) + unsigned_member(key@, v));
}

fn push_signed_member(out: &mut Vec<JsonField>, key: &str, v: Option<i64>)
    ensures
        fields_view(final(out)@) == fields_view(old(out)@) + signed_member(key@, v),
{
    match v {
        Some(n) => {
            out.push(JsonField { key: copy_str(key), value: JsonScalar::Signed(n) });
        },
        None => {},
    }
    assert(fields_view(out@) =~= fields_view(old(out)@) + signed_member(key@, v));
}

/// The JSON members of a story in a list.
pub fn story_list_entry_json(story: &Item) -> (r: Vec<JsonField>)
    ensures
        fields_view(r@) == story_members(*story),
{
    let mut r: Vec<JsonField> = Vec::new();
    r.push(JsonField { key: copy_str("id"), value: JsonScalar::Unsigned(story.id) });
    assert(fields_view(r@) =~= seq![("id"@, JsonScalarView::Unsigned(story.id))]);
    push_text_member(&mut r, "title", &story.title);
    push_text_member(&mut r, "url", &story.url);
    push_text_member(&mut r, "by", &story.by);
    push_signed_member(&mut r, "score", story.score);
    push_unsigned_member(&mut r, "time", story.time);
    push_unsigned_member(&mut r, "descendants", story.descendants);
    r
}

/// The JSON members of a comment.
pub fn comment_json(c: &Item) -> (r: Vec<JsonField>)
    ensures
        fields_view(r@) == comment_members(*c),
{
    let mut r: Vec<JsonField> = Vec::new();
    r.push(JsonField { key: copy_str("id"), value: JsonScalar::Unsigned(c.id) });
    assert(fields_view(r@) =~= seq![("id"@, JsonScalarView::Unsigned(c.id))]);
    push_text_member(&mut r, "by", &c.by);
    push_text_member(&mut r, "text", &c.text);
    push_unsigned_member(&mut r, "time", c.time);
    r
}

/// The JSON members of a user.
pub fn user_json(user: &User) -> (r: Vec<JsonField>)
    ensures
        fields_view(r@) == user_members(*user),
{
    let mut r: Vec<JsonField> = Vec::new();
    r.push(JsonField { key: copy_str("id"), value: JsonScalar::Text(user.id.clone()) });
    assert(fields_view(r@) =~= seq![("id"@, JsonScalarView::Text(user.id@))]);
    push_signed_member(&mut r, "karma", user.karma);
    let ghost before = fields_view(r@);
    r.push(JsonField { key: copy_str("created"), value: JsonScalar::Unsigned(user.created) });
    assert(fields_view(r@) =~= before + seq![("created"@, JsonScalarView::Unsigned(user.created))]);
    push_text_member(&mut r, "about", &user.about);
    r
}

/// A story with its comments, as JSON: the story's members, and its comments' members.
pub struct StoryJson {
    pub fields: Vec<JsonField>,
    pub comments: Vec<Vec<JsonField>>,
}

/// The JSON of a story page: the members of the story as listed plus its text where it has
/// one, and each comment's members in order.
pub fn story_json(story: &Item, comments: &[Item]) -> (r: StoryJson)
    ensures
        fields_view(r.fields@) == story_members(*story) + text_member("text"@, story.text),
        r.comments@.len() == comments@.len(),
        forall|i: int| 0 <= i < comments@.len() ==> fields_view(#[trigger] r.comments@[i]@) == comment_members(comments@[i]),
{
    let mut fields = story_list_entry_json(story);
    push_text_member(&mut fields, "text", &story.text);
    let mut cs: Vec<Vec<JsonField>> = Vec::new();
    let mut i: usize = 0;
    while i < comments.len()
        invariant
            i <= comments@.len(),
            cs@.len() == i,
            forall|k: int| 0 <= k < i ==> fields_view(#[trigger] cs@[k]@) == comment_members(comments@[k]),
        decreases comments@.len() - i,
    {
        cs.push(comment_json(&comments[i]));
        i = i + 1;
    }
    StoryJson { fields, comments: cs }
}

/// The JSON of a story list: each story's members, in order.
pub fn story_list_json(stories: &[Item]) -> (r: Vec<Vec<JsonField>>)
    ensures
        r@.len() == stories@.len(),
        forall|i: int| 0 <= i < stories@.len() ==> fields_view(#[trigger] r@[i]@) == story_members(stories@[i]),
{
    let mut r: Vec<Vec<JsonField>> = Vec::new();
    let mut i: usize = 0;
    while i < stories.len()
        invariant
            i <= stories@.len(),
            r@.len() == i,
            forall|k: int| 0 <= k < i ==> fields_view(#[trigger] r@[k]@) == story_members(stories@[k]),
        decreases stories@.len() - i,
    {
        r.push(story_list_entry_json(&stories[i]));
        i = i + 1;
    }
    r
}

// ---------------------------------------------------------------------------
// Laws
// ---------------------------------------------------------------------------

/// A dead or deleted comment shows nothing, not even its replies.
pub proof fn lemma_gone_comment_hidden(c: Item, all: Seq<Item>, depth: nat, budget: nat, width: usize, now: u64)
    requires
        is_gone(c),
    ensures
        comment_lines(c, all, depth, budget, width, now) == Seq::<ThreadLineView>::empty(),
{
}

/// `rank` orders the reply structure of `all`: every comment of `all` that is shown ranks
/// above each reply it finds in `all`. Threads without cycles have such a ranking.
pub open spec fn ranks_replies(all: Seq<Item>, rank: spec_fn(Item) -> nat) -> bool {
    forall|j: int, q: int|
        0 <= j < all.len() && !is_gone(all[j]) && 0 <= q < kids_of(all[j]).len() ==> match position_of(
            all,
            #[trigger] kids_of(all[j])[q],
            0,
        ) {
            Some(k) => rank(all[k]) < rank(all[j]),
            None => true,
        }
}

/// Every reply of `kids[i..]` found in `all` ranks below `bound`.
pub open spec fn replies_below(kids: Seq<u64>, i: int, all: Seq<Item>, rank: spec_fn(Item) -> nat, bound: nat) -> bool {
    forall|q: int|
        i <= q < kids.len() ==> match position_of(all, #[trigger] kids[q], 0) {
            Some(k) => rank(all[k]) < bound,
            None => true,
        }
}

proof fn lemma_position_in_range(all: Seq<Item>, id: u64, j: int)
    ensures
        position_of(all, id, j) matches Some(k) ==> 0 <= k < all.len(),
    decreases all.len() - j,
{
    if 0 <= j < all.len() && all[j].id != id {
        lemma_position_in_range(all, id, j + 1);
    }
}

/// On a ranked thread, the depth bound of a comment's lines never cuts anything once it
/// exceeds the comment's rank: any two such bounds give the same lines.
pub proof fn lemma_comment_bound_irrelevant(
    c: Item,
    all: Seq<Item>,
    depth: nat,
    b1: nat,
    b2: nat,
    width: usize,
    now: u64,
    rank: spec_fn(Item) -> nat,
)
    requires
        ranks_replies(all, rank),
        !is_gone(c) ==> replies_below(kids_of(c), 0, all, rank, rank(c)),
        rank(c) < b1,
        rank(c) < b2,
    ensures
        comment_lines(c, all, depth, b1, width, now) == comment_lines(c, all, depth, b2, width, now),
    decreases b1, 0nat,
{
    if !is_gone(c) {
        lemma_replies_bound_irrelevant(
            kids_of(c),
            0,
            all,
            depth + 1,
            (b1 - 1) as nat,
            (b2 - 1) as nat,
            width,
            now,
            rank,
        );
    }
}

/// On a ranked thread, the depth bound of replies never cuts anything once it exceeds the
/// rank of every reply found: any two such bounds give the same lines.
pub proof fn lemma_replies_bound_irrelevant(
    kids: Seq<u64>,
    i: int,
    all: Seq<Item>,
    depth: nat,
    b1: nat,
    b2: nat,
    width: usize,
    now: u64,
    rank: spec_fn(Item) -> nat,
)
    requires
        ranks_replies(all, rank),
        replies_below(kids, i, all, rank, b1),
        replies_below(kids, i, all, rank, b2),
    ensures
        reply_lines(kids, i, all, depth, b1, width, now) == reply_lines(kids, i, all, depth, b2, width, now),
    decreases b1, kids.len() + 1 - i,
{
    if 0 <= i < kids.len() {
        lemma_position_in_range(all, kids[i], 0);
        match position_of(all, kids[i], 0) {
            Some(k) => {
                let c = all[k];
                assert(rank(all[k]) < b1);
                assert(rank(all[k]) < b2);
                if !is_gone(c) {
                    assert forall|q: int| 0 <= q < kids_of(c).len() implies match position_of(
                        all,
                        #[trigger] kids_of(c)[q],
                        0,
                    ) {
                        Some(k2) => rank(all[k2]) < rank(c),
                        None => true,
                    } by {
                        assert(kids_of(all[k])[q] == kids_of(c)[q]);
                    }
                }
                lemma_comment_bound_irrelevant(c, all, depth, b1, b2, width, now, rank);
            },
            None => {},
        }
        lemma_replies_bound_irrelevant(kids, i + 1, all, depth, b1, b2, width, now, rank);
    }
}

/// The number of comments of `all` that `rank` puts below `x`.
pub open spec fn rank_count(all: Seq<Item>, rank: spec_fn(Item) -> nat, x: Item) -> nat {
    Set::new(|k: int| 0 <= k < all.len() && rank(all[k]) < rank(x)).len()
}

proof fn lemma_rank_count_bounded(all: Seq<Item>, rank: spec_fn(Item) -> nat, x: Item)
    ensures
        rank_count(all, rank, x) <= all.len(),
        Set::new(|k: int| 0 <= k < all.len() && rank(all[k]) < rank(x)).finite(),
{
    let sx = Set::new(|k: int| 0 <= k < all.len() && rank(all[k]) < rank(x));
    vstd::set_lib::lemma_int_range(0, all.len() as int);
    vstd::set_lib::lemma_len_subset(sx, vstd::set_lib::set_int_range(0, all.len() as int));
}

proof fn lemma_rank_count_drops(all: Seq<Item>, rank: spec_fn(Item) -> nat, x: Item, y: int)
    requires
        0 <= y < all.len(),
        rank(all[y]) < rank(x),
    ensures
        rank_count(all, rank, all[y]) < rank_count(all, rank, x),
{
    let sx = Set::new(|k: int| 0 <= k < all.len() && rank(all[k]) < rank(x));
    let sy = Set::new(|k: int| 0 <= k < all.len() && rank(all[k]) < rank(all[y]));
    lemma_rank_count_bounded(all, rank, x);
    assert(sy.insert(y).subset_of(sx));
    vstd::set_lib::lemma_len_subset(sy.insert(y), sx);
    vstd::set_lib::lemma_len_subset(sy, sx);
    assert(!sy.contains(y));
    vstd::set::axiom_set_insert_len(sy, y);
}

/// Counting the comments below each one keeps a ranking a ranking.
proof fn lemma_counted_ranking(all: Seq<Item>, rank: spec_fn(Item) -> nat)
    requires
        ranks_replies(all, rank),
    ensures
        ranks_replies(all, |x: Item| rank_count(all, rank, x)),
{
    let counted = |x: Item| rank_count(all, rank, x);
    assert forall|j: int, q: int|
        0 <= j < all.len() && !is_gone(all[j]) && 0 <= q < kids_of(all[j]).len() implies match position_of(
        all,
        #[trigger] kids_of(all[j])[q],
        0,
    ) {
        Some(k) => counted(all[k]) < counted(all[j]),
        None => true,
    } by {
        lemma_position_in_range(all, kids_of(all[j])[q], 0);
        if let Some(k) = position_of(all, kids_of(all[j])[q], 0) {
            lemma_rank_count_drops(all, rank, all[j], k);
        }
    }
}

/// On a thread without cycles (one that some ranking orders), the depth bound of
/// `comment_tree_lines` cuts nothing: any larger bound gives the same lines.
pub proof fn lemma_comment_bound_never_cuts(
    c: Item,
    all: Seq<Item>,
    depth: nat,
    bound: nat,
    width: usize,
    now: u64,
    rank: spec_fn(Item) -> nat,
)
    requires
        ranks_replies(all, rank),
        !is_gone(c) ==> replies_below(kids_of(c), 0, all, rank, rank(c)),
        bound > all.len(),
    ensures
        comment_lines(c, all, depth, all.len() + 1, width, now) == comment_lines(c, all, depth, bound, width, now),
{
    let counted = |x: Item| rank_count(all, rank, x);
    lemma_counted_ranking(all, rank);
    lemma_rank_count_bounded(all, rank, c);
    if !is_gone(c) {
        assert forall|q: int| 0 <= q < kids_of(c).len() implies match position_of(
            all,
            #[trigger] kids_of(c)[q],
            0,
        ) {
            Some(k) => counted(all[k]) < counted(c),
            None => true,
        } by {
            lemma_position_in_range(all, kids_of(c)[q], 0);
            if let Some(k) = position_of(all, kids_of(c)[q], 0) {
                lemma_rank_count_drops(all, rank, c, k);
            }
        }
    }
    lemma_comment_bound_irrelevant(c, all, depth, all.len() + 1, bound, width, now, counted);
}

/// On a thread without cycles (one that some ranking orders), the depth bound of a story's
/// thread cuts nothing: any larger bound gives the same lines.
pub proof fn lemma_story_bound_never_cuts(
    story: Item,
    all: Seq<Item>,
    bound: nat,
    width: usize,
    now: u64,
    rank: spec_fn(Item) -> nat,
)
    requires
        ranks_replies(all, rank),
        bound > all.len(),
    ensures
        story_thread(story, all, width, now) == reply_lines(kids_of(story), 0, all, 0, bound, width, now),
{
    let counted = |x: Item| rank_count(all, rank, x);
    lemma_counted_ranking(all, rank);
    let kids = kids_of(story);
    assert forall|q: int| 0 <= q < kids.len() implies match position_of(all, #[trigger] kids[q], 0) {
        Some(k) => counted(all[k]) < all.len() + 1 && counted(all[k]) < bound,
        None => true,
    } by {
        if let Some(k) = position_of(all, kids[q], 0) {
            lemma_rank_count_bounded(all, rank, all[k]);
        }
    }
    lemma_replies_bound_irrelevant(kids, 0, all, 0, all.len() + 1, bound, width, now, counted);
}

// ---------------------------------------------------------------------------
// Laws of the JSON members
// ---------------------------------------------------------------------------

/// 1 where an optional field is present, 0 where it is not.
pub open spec fn present<T>(o: Option<T>) -> int {
    if o is Some {
        1
    } else {
        0
    }
}

/// A story's members are its id, first, and one member for each of title, address, author,
/// score, time and comment count that the story has, holding that field's value, and nothing
/// else.
pub proof fn lemma_story_members_exact(story: Item)
    ensures
        story_members(story).len() == 1 + present(story.title) + present(story.url) + present(
            story.by,
        ) + present(story.score) + present(story.time) + present(story.descendants),
        story_members(story)[0] == ("id"@, JsonScalarView::Unsigned(story.id)),
        story.title matches Some(t) ==> story_members(story).contains(("title"@, JsonScalarView::Text(t@))),
        story.url matches Some(u) ==> story_members(story).contains(("url"@, JsonScalarView::Text(u@))),
        story.by matches Some(b) ==> story_members(story).contains(("by"@, JsonScalarView::Text(b@))),
        story.score matches Some(n) ==> story_members(story).contains(("score"@, JsonScalarView::Signed(n))),
        story.time matches Some(n) ==> story_members(story).contains(("time"@, JsonScalarView::Unsigned(n))),
        story.descendants matches Some(n) ==> story_members(story).contains(
            ("descendants"@, JsonScalarView::Unsigned(n)),
        ),
{
    broadcast use vstd::seq_lib::lemma_seq_concat_contains_all_elements;

    let m = story_members(story);
    if let Some(t) = story.title {
        assert(text_member("title"@, story.title)[0] == ("title"@, JsonScalarView::Text(t@)));
    }
    if let Some(u) = story.url {
        assert(text_member("url"@, story.url)[0] == ("url"@, JsonScalarView::Text(u@)));
    }
    if let Some(b) = story.by {
        assert(text_member("by"@, story.by)[0] == ("by"@, JsonScalarView::Text(b@)));
    }
    if let Some(n) = story.score {
        assert(signed_member("score"@, story.score)[0] == ("score"@, JsonScalarView::Signed(n)));
    }
    if let Some(n) = story.time {
        assert(unsigned_member("time"@, story.time)[0] == ("time"@, JsonScalarView::Unsigned(n)));
    }
    if let Some(n) = story.descendants {
        assert(unsigned_member("descendants"@, story.descendants)[0] == (
            "descendants"@,
            JsonScalarView::Unsigned(n),
        ));
    }
}

/// A comment's members are its id, first, and one member for each of author, text and time
/// that the comment has, holding that field's value, and nothing else.
pub proof fn lemma_comment_members_exact(c: Item)
    ensures
        comment_members(c).len() == 1 + present(c.by) + present(c.text) + present(c.time),
        comment_members(c)[0] == ("id"@, JsonScalarView::Unsigned(c.id)),
        c.by matches Some(b) ==> comment_members(c).contains(("by"@, JsonScalarView::Text(b@))),
        c.text matches Some(t) ==> comment_members(c).contains(("text"@, JsonScalarView::Text(t@))),
        c.time matches Some(n) ==> comment_members(c).contains(("time"@, JsonScalarView::Unsigned(n))),
{
    broadcast use vstd::seq_lib::lemma_seq_concat_contains_all_elements;

    if let Some(b) = c.by {
        assert(text_member("by"@, c.by)[0] == ("by"@, JsonScalarView::Text(b@)));
    }
    if let Some(t) = c.text {
        assert(text_member("text"@, c.text)[0] == ("text"@, JsonScalarView::Text(t@)));
    }
    if let Some(n) = c.time {
        assert(unsigned_member("time"@, c.time)[0] == ("time"@, JsonScalarView::Unsigned(n)));
    }
}

/// A user's members are, in order: the id; the karma where the user has it; the creation
/// time; the "about" text where the user has it.
pub proof fn lemma_user_members_exact(user: User)
    ensures
        user_members(user).len() == 2 + present(user.karma) + present(user.about),
        user_members(user)[0] == ("id"@, JsonScalarView::Text(user.id@)),
        user.karma matches Some(k) ==> user_members(user)[1] == ("karma"@, JsonScalarView::Signed(k))
            && user_members(user)[2] == ("created"@, JsonScalarView::Unsigned(user.created)),
        user.karma is None ==> user_members(user)[1] == ("created"@, JsonScalarView::Unsigned(user.created)),
        user.about matches Some(a) ==> user_members(user).last() == ("about"@, JsonScalarView::Text(a@)),
{
}

// ---------------------------------------------------------------------------
// Laws of the comment thread
// ---------------------------------------------------------------------------

/// `position_of` finds the first item with the id, and finds nothing only when no item has it.
pub proof fn lemma_position_of_first(all: Seq<Item>, id: u64)
    ensures
        position_of(all, id, 0) matches Some(j) ==> 0 <= j < all.len() && all[j].id == id && forall|k: int|
            0 <= k < j ==> #[trigger] all[k].id != id,
        position_of(all, id, 0) is None ==> forall|k: int| 0 <= k < all.len() ==> #[trigger] all[k].id != id,
{
    lemma_position_from(all, id, 0);
}

proof fn lemma_position_from(all: Seq<Item>, id: u64, j: int)
    requires
        0 <= j,
    ensures
        position_of(all, id, j) matches Some(p) ==> j <= p < all.len() && all[p].id == id && forall|k: int|
            j <= k < p ==> #[trigger] all[k].id != id,
        position_of(all, id, j) is None ==> forall|k: int| j <= k < all.len() ==> #[trigger] all[k].id != id,
    decreases all.len() - j,
{
    if j < all.len() && all[j].id != id {
        lemma_position_from(all, id, j + 1);
    }
}

proof fn lemma_reply_lines_shift(a: Seq<u64>, b: Seq<u64>, j: int, all: Seq<Item>, depth: nat, budget: nat, width: usize, now: u64)
    requires
        0 <= j <= b.len(),
    ensures
        reply_lines(a + b, a.len() + j, all, depth, budget, width, now) == reply_lines(b, j, all, depth, budget, width, now),
    decreases b.len() - j,
{
    if j < b.len() {
        assert((a + b)[a.len() + j] == b[j]);
        lemma_reply_lines_shift(a, b, j + 1, all, depth, budget, width, now);
    }
}

proof fn lemma_reply_lines_prefix(a: Seq<u64>, b: Seq<u64>, i: int, all: Seq<Item>, depth: nat, budget: nat, width: usize, now: u64)
    requires
        0 <= i <= a.len(),
    ensures
        reply_lines(a + b, i, all, depth, budget, width, now) == reply_lines(a, i, all, depth, budget, width, now)
            + reply_lines(b, 0, all, depth, budget, width, now),
    decreases a.len() - i,
{
    if i == a.len() {
        lemma_reply_lines_shift(a, b, 0, all, depth, budget, width, now);
        assert(Seq::<ThreadLineView>::empty() + reply_lines(b, 0, all, depth, budget, width, now)
            =~= reply_lines(b, 0, all, depth, budget, width, now));
    } else {
        assert((a + b)[i] == a[i]);
        lemma_reply_lines_prefix(a, b, i + 1, all, depth, budget, width, now);
        let here = match position_of(all, a[i], 0) {
            Some(j) => comment_lines(all[j], all, depth, budget, width, now),
            None => Seq::empty(),
        };
        assert(here + (reply_lines(a, i + 1, all, depth, budget, width, now) + reply_lines(b, 0, all, depth, budget, width, now))
            =~= (here + reply_lines(a, i + 1, all, depth, budget, width, now)) + reply_lines(b, 0, all, depth, budget, width, now));
    }
}

/// The lines of the replies `a + b` are those of `a` followed by those of `b`: replies, and
/// top-level comments below a story, come out in the order of the kids list.
pub proof fn lemma_reply_lines_concat(a: Seq<u64>, b: Seq<u64>, all: Seq<Item>, depth: nat, budget: nat, width: usize, now: u64)
    ensures
        reply_lines(a + b, 0, all, depth, budget, width, now) == reply_lines(a, 0, all, depth, budget, width, now)
            + reply_lines(b, 0, all, depth, budget, width, now),
{
    lemma_reply_lines_prefix(a, b, 0, all, depth, budget, width, now);
}

/// The lines of a single reply id are those of the first comment of `all` with that id, or
/// nothing when no comment has it.
pub proof fn lemma_reply_lines_single(k: u64, all: Seq<Item>, depth: nat, budget: nat, width: usize, now: u64)
    ensures
        reply_lines(seq![k], 0, all, depth, budget, width, now) == match position_of(all, k, 0) {
            Some(j) => comment_lines(all[j], all, depth, budget, width, now),
            None => Seq::<ThreadLineView>::empty(),
        },
{
    let here = match position_of(all, k, 0) {
        Some(j) => comment_lines(all[j], all, depth, budget, width, now),
        None => Seq::<ThreadLineView>::empty(),
    };
    assert(reply_lines(seq![k], 1, all, depth, budget, width, now) == Seq::<ThreadLineView>::empty());
    assert(here + Seq::<ThreadLineView>::empty() =~= here);
}

/// A live comment shown within the depth bound gives, in order: its heading, indented two
/// spaces per level, with its author (or "unknown") and age; its rendered text, one indented
/// line each; its replies one level deeper; and, at the top level only, a closing blank line.
pub proof fn lemma_comment_lines_layout(c: Item, all: Seq<Item>, depth: nat, budget: nat, width: usize, now: u64)
    requires
        c.dead != Some(true),
        c.deleted != Some(true),
        budget > 0,
    ensures
        comment_lines(c, all, depth, budget, width, now) == seq![
            ThreadLineView::Header(
                Seq::new(2 * depth, |i: int| ' '),
                match c.by {
                    Some(b) => b@,
                    None => "unknown"@,
                },
                match c.time {
                    Some(t) => time_ago_text(t, now),
                    None => Seq::empty(),
                },
            ),
        ] + (match c.text {
            Some(t) => if t@.len() > 0 {
                text_lines(rendered_html(t@, if 2 * depth <= width { (width - 2 * depth) as usize } else { 0 })).map_values(
                    |l: Seq<char>| ThreadLineView::Body(Seq::new(2 * depth, |i: int| ' ') + l),
                )
            } else {
                Seq::empty()
            },
            None => Seq::empty(),
        }) + reply_lines(
            match c.kids {
                Some(k) => k@,
                None => Seq::empty(),
            },
            0,
            all,
            depth + 1,
            (budget - 1) as nat,
            width,
            now,
        ) + (if depth == 0 {
            seq![ThreadLineView::Gap]
        } else {
            Seq::empty()
        }),
{
}

// ---------------------------------------------------------------------------
// Laws of domains
// ---------------------------------------------------------------------------

/// The domain is the whole host of the address: the address is a prefix (nothing, when it
/// holds no "://", else everything up to and including its first "://"), then an optional
/// "www.", then the domain, then nothing or a path starting with "/"; and the "www." is left
/// out only where the host starts with it.
pub proof fn lemma_domain_is_whole_host(url: Seq<char>)
    ensures
        exists|i: int, j: int|
            #![trigger url.subrange(i, j)]
            0 <= i <= j && j + domain_of(url).len() <= url.len() && url.subrange(j, j + domain_of(url).len())
                == domain_of(url) && (j + domain_of(url).len() == url.len() || url[j + domain_of(url).len()]
                == '/') && ((i == 0 && forall|k: int| 0 <= k ==> !#[trigger] occurs_at(url, "://"@, k)) || (3
                <= i && url.subrange(i - 3, i) == "://"@ && forall|k: int|
                0 <= k < i - 3 ==> !#[trigger] occurs_at(url, "://"@, k))) && ((j == i && !(domain_of(url).len()
                >= 4 && domain_of(url).subrange(0, 4) == "www."@)) || (j == i + 4 && url.subrange(i, j)
                == "www."@)),
{
    let p = "://"@;
    let sl = "/"@;
    assert(p.len() == 3) by {
        reveal_strlit("://");
    }
    assert(sl.len() == 1 && sl[0] == '/') by {
        reveal_strlit("/");
    }
    assert("www."@.len() == 4) by {
        reveal_strlit("www.");
    }
    lemma_find_from(url, p, 0);
    let start = match find_from(url, p, 0) {
        Some(i) => i + 3,
        None => 0,
    };
    let rest = url.subrange(start, url.len() as int);
    lemma_find_from(rest, sl, 0);
    let end = match find_from(rest, sl, 0) {
        Some(j) => j,
        None => rest.len() as int,
    };
    let host = rest.subrange(0, end);
    let d = domain_of(url);
    if let Some(i) = find_from(url, p, 0) {
        assert(url.subrange(start - 3, start) == p);
    }
    if let Some(j) = find_from(rest, sl, 0) {
        assert(rest.subrange(j, j + 1) == sl);
        assert(rest.subrange(j, j + 1)[0] == rest[j]);
        assert(url[start + end] == rest[end]);
    }
    if host.len() >= 4 && host.subrange(0, 4) == "www."@ {
        let j = start + 4;
        assert(url.subrange(start, j) =~= host.subrange(0, 4));
        assert(url.subrange(j, j + d.len()) =~= d);
        assert(url.subrange(start, j) == "www."@);
        assert(url.subrange(j, j + d.len()) == d);
    } else {
        assert(url.subrange(start, start + d.len()) =~= d);
        assert(url.subrange(start, start) =~= Seq::<char>::empty());
    }
}

// ---------------------------------------------------------------------------
// Laws of times, headings, pages and profiles
// ---------------------------------------------------------------------------

/// How long ago a time was: "just now" when it is not in the past; otherwise whole seconds
/// under a minute, whole minutes under an hour, whole hours under a day, whole days under 30
/// days (each as the count, the unit letter and " ago"); from 30 days on, the month and day
/// that chrono writes, or nothing where the date is out of its range.
pub proof fn lemma_time_ago_units(timestamp: u64, now: u64)
    ensures
        timestamp >= now ==> time_ago_text(timestamp, now) == "just now"@,
        timestamp < now && now - timestamp < 60 ==> time_ago_text(timestamp, now) == decimal(
            (now - timestamp) as nat,
        ) + "s ago"@,
        timestamp < now && 60 <= now - timestamp < 3600 ==> time_ago_text(timestamp, now) == decimal(
            ((now - timestamp) / 60) as nat,
        ) + "m ago"@,
        timestamp < now && 3600 <= now - timestamp < 86400 ==> time_ago_text(timestamp, now) == decimal(
            ((now - timestamp) / 3600) as nat,
        ) + "h ago"@,
        timestamp < now && 86400 <= now - timestamp < 2592000 ==> time_ago_text(timestamp, now) == decimal(
            ((now - timestamp) / 86400) as nat,
        ) + "d ago"@,
        timestamp < now && 2592000 <= now - timestamp ==> time_ago_text(timestamp, now) == match utc_date_text(
            timestamp,
            "%b %d"@,
        ) {
            Some(t) => t,
            None => Seq::<char>::empty(),
        },
{
}

/// A story's heading holds its title (or "(no title)"), its address, its score (0 without
/// one) followed by " points", its author (or "unknown"), how long ago it was posted (nothing
/// without a time), and its comment count (0 without one).
pub proof fn lemma_summary_fields(sm: StorySummary, story: Item, now: u64)
    requires
        is_summary_of(sm, story, now),
    ensures
        sm.title@ == match story.title {
            Some(t) => t@,
            None => "(no title)"@,
        },
        sm.url == story.url,
        sm.points@ == signed_decimal(
            match story.score {
                Some(p) => p as int,
                None => 0,
            },
        ) + " points"@,
        sm.by@ == match story.by {
            Some(b) => b@,
            None => "unknown"@,
        },
        sm.time@ == match story.time {
            Some(t) => time_ago_text(t, now),
            None => Seq::<char>::empty(),
        },
        sm.comments@ == decimal(
            match story.descendants {
                Some(c) => c as nat,
                None => 0,
            },
        ),
{
}

/// A list entry is numbered with its position followed by ".", shows the domain of the
/// story's address (nothing without one) and the story's id.
pub proof fn lemma_line_fields(line: StoryLine, story: Item, n: nat, now: u64)
    requires
        is_line_of(line, story, n, now),
    ensures
        line.number@ == decimal(n) + "."@,
        line.domain@ == match story.url {
            Some(u) => domain_of(u@),
            None => Seq::<char>::empty(),
        },
        line.id@ == decimal(story.id as nat),
        is_summary_of(line.summary, story, now),
{
}

/// Rendered HTML is the cleaned-up output of html2text, or of the HTML itself where
/// html2text fails.
pub proof fn lemma_rendered_html_source(html: Seq<char>, width: usize)
    ensures
        html_as_text(html, width) matches Some(t) ==> rendered_html(html, width) == tidy_text(t),
        html_as_text(html, width) is None ==> rendered_html(html, width) == tidy_text(html),
{
}

/// A story's page holds the story's text rendered to the full width exactly when the story
/// has non-empty text; a rule of `width` dashes and the thread below the story exactly when
/// there are comments.
pub proof fn lemma_detail_parts(d: StoryDetail, story: Item, comments: Seq<Item>, width: usize, now: u64)
    requires
        is_detail_of(d, story, comments, width, now),
    ensures
        is_summary_of(d.summary, story, now),
        match story.text {
            Some(t) => if t@.len() > 0 {
                (d.body matches Some(b) && b@ == rendered_html(t@, width))
            } else {
                d.body is None
            },
            None => d.body is None,
        },
        comments.len() == 0 ==> d.rule is None && d.thread@.len() == 0,
        comments.len() > 0 ==> (d.rule matches Some(r) && r@ == Seq::new(width as nat, |i: int| '-'))
            && thread_view(d.thread@) == reply_lines(
            match story.kids {
                Some(k) => k@,
                None => Seq::empty(),
            },
            0,
            comments,
            0,
            comments.len() + 1,
            width,
            now,
        ),
{
}

/// A profile holds the user's id, the karma in decimal where the user has it, the creation
/// date as year-month-day where chrono can write it, and the rendered "about" text where it is
/// not empty.
pub proof fn lemma_profile_fields(p: UserProfile, user: User, width: usize)
    requires
        is_profile_of(p, user, width),
    ensures
        p.id@ == user.id@,
        user.karma matches Some(k) ==> (p.karma matches Some(s) && s@ == signed_decimal(k as int)),
        user.karma is None ==> p.karma is None,
        utc_date_text(user.created, "%Y-%m-%d"@) matches Some(t) ==> (p.created matches Some(c) && c@ == t),
        utc_date_text(user.created, "%Y-%m-%d"@) is None ==> p.created is None,
        match user.about {
            Some(a) => if a@.len() > 0 {
                (p.about matches Some(s) && s@ == rendered_html(a@, width))
            } else {
                p.about is None
            },
            None => p.about is None,
        },
{
}

} // verus!

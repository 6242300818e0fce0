use vstd::prelude::*;

use crate::text::{copy_str, decimal, push_decimal, push_str, same_text};

verus! {

/// An item of the Hacker News API: a story, comment, job, poll or poll option.
#[derive(Debug, Clone, PartialEq, Eq)]
pub struct Item {
    pub id: u64,
    pub item_type: Option<String>,
    pub by: Option<String>,
    pub time: Option<u64>,
    pub title: Option<String>,
    pub url: Option<String>,
    pub text: Option<String>,
    pub score: Option<i64>,
    pub descendants: Option<u64>,
    pub parent: Option<u64>,
    pub kids: Option<Vec<u64>>,
    pub parts: Option<Vec<u64>>,
    pub dead: Option<bool>,
    pub deleted: Option<bool>,
}

/// A user of the Hacker News API.
#[derive(Debug, Clone, PartialEq, Eq)]
pub struct User {
    pub id: String,
    pub created: u64,
    pub karma: Option<i64>,
    pub about: Option<String>,
    pub submitted: Option<Vec<u64>>,
}

/// The story lists that the API publishes.
#[derive(Debug, Clone, Copy, PartialEq, Eq, Structural)]
pub enum StoryList {
    Top,
    New,
    Best,
    Ask,
    Show,
    Jobs,
}

/// The name by which a story list is chosen.
pub open spec fn list_name(list: StoryList) -> Seq<char> {
    match list {
        StoryList::Top => "top"@,
        StoryList::New => "new"@,
        StoryList::Best => "best"@,
        StoryList::Ask => "ask"@,
        StoryList::Show => "show"@,
        StoryList::Jobs => "jobs"@,
    }
}

/// The file under the API root that holds a story list.
pub open spec fn list_file(list: StoryList) -> Seq<char> {
    match list {
        StoryList::Top => "topstories.json"@,
        StoryList::New => "newstories.json"@,
        StoryList::Best => "beststories.json"@,
        StoryList::Ask => "askstories.json"@,
        StoryList::Show => "showstories.json"@,
        StoryList::Jobs => "jobstories.json"@,
    }
}

impl StoryList {
    /// The list called `name`, or `None` for a name that no list has.
    pub fn from_name(name: &str) -> (r: Option<StoryList>)
        ensures
            match r {
                Some(list) => list_name(list) == name@,
                None => forall|list: StoryList| list_name(list) != name@,
            },
    {
        if same_text(name, "top") {
            Some(StoryList::Top)
        } else if same_text(name, "new") {
            Some(StoryList::New)
        } else if same_text(name, "best") {
            Some(StoryList::Best)
        } else if same_text(name, "ask") {
            Some(StoryList::Ask)
        } else if same_text(name, "show") {
            Some(StoryList::Show)
        } else if same_text(name, "jobs") {
            Some(StoryList::Jobs)
        } else {
            assert forall|list: StoryList| list_name(list) != name@ by {
                match list {
                    StoryList::Top => {},
                    StoryList::New => {},
                    StoryList::Best => {},
                    StoryList::Ask => {},
                    StoryList::Show => {},
                    StoryList::Jobs => {},
                }
            }
            None
        }
    }
}

/// The root of the Hacker News API.
pub open spec fn api_root() -> Seq<char> {
    "https://hacker-news.firebaseio.com/v0"@
}

/// The root of the Hacker News API, which a client starts with.
pub fn api_base() -> (r: String)
    ensures
        r@ == api_root(),
{
    copy_str("https://hacker-news.firebaseio.com/v0")
}

/// The address of one item.
pub fn item_url(base: &str, id: u64) -> (r: String)
    ensures
        r@ == base@ + "/item/"@ + decimal(id as nat) + ".json"@,
{
    let mut r = copy_str(base);
    push_str(&mut r, "/item/");
    push_decimal(&mut r, id);
    push_str(&mut r, ".json");
    r
}

/// The address of one user's profile.
pub fn user_url(base: &str, id: &str) -> (r: String)
    ensures
        r@ == base@ + "/user/"@ + id@ + ".json"@,
{
    let mut r = copy_str(base);
    push_str(&mut r, "/user/");
    push_str(&mut r, id);
    push_str(&mut r, ".json");
    r
}

/// The address of a story list.
pub fn list_url(base: &str, list: StoryList) -> (r: String)
    ensures
        r@ == base@ + "/"@ + list_file(list),
{
    let mut r = copy_str(base);
    push_str(&mut r, "/");
    match list {
        StoryList::Top => push_str(&mut r, "topstories.json"),
        StoryList::New => push_str(&mut r, "newstories.json"),
        StoryList::Best => push_str(&mut r, "beststories.json"),
        StoryList::Ask => push_str(&mut r, "askstories.json"),
        StoryList::Show => push_str(&mut r, "showstories.json"),
        StoryList::Jobs => push_str(&mut r, "jobstories.json"),
    }
    r
}

/// The ids of a list that are fetched when at most `limit` stories are shown: the first
/// `limit` of them.
pub fn ids_to_fetch(ids: &[u64], limit: usize) -> (r: Vec<u64>)
    ensures
        r@ == ids@.take(if limit < ids@.len() { limit as int } else { ids@.len() as int }),
{
    let n = if limit < ids.len() {
        limit
    } else {
        ids.len()
    };
    let mut r: Vec<u64> = Vec::new();
    let mut i: usize = 0;
    while i < n
        invariant
            n <= ids@.len(),
            i <= n,
            r@ == ids@.take(i as int),
        decreases n - i,
    {
        r.push(ids[i]);
        i = i + 1;
        assert(r@ =~= ids@.take(i as int));
    }
    r
}

/// Whether an item was killed or deleted.
pub open spec fn is_gone(item: Item) -> bool {
    item.dead == Some(true) || item.deleted == Some(true)
}

/// Whether an item is a story or a job posting.
pub open spec fn is_story_or_job(item: Item) -> bool {
    match item.item_type {
        Some(t) => t@ == "story"@ || t@ == "job"@,
        None => false,
    }
}

/// The stories and jobs among the fetched items that are neither dead nor deleted, in order;
/// fetches that failed are skipped.
pub open spec fn listed_stories(results: Seq<Option<Item>>) -> Seq<Item>
    decreases results.len(),
{
    if results.len() == 0 {
        Seq::empty()
    } else {
        let rest = listed_stories(results.drop_last());
        match results.last() {
            Some(item) => if is_story_or_job(item) && !is_gone(item) {
                rest.push(item)
            } else {
                rest
            },
            None => rest,
        }
    }
}

/// The fetched items that are neither dead nor deleted, in order; fetches that failed are
/// skipped.
pub open spec fn live_items(results: Seq<Option<Item>>) -> Seq<Item>
    decreases results.len(),
{
    if results.len() == 0 {
        Seq::empty()
    } else {
        let rest = live_items(results.drop_last());
        match results.last() {
            Some(item) => if !is_gone(item) {
                rest.push(item)
            } else {
                rest
            },
            None => rest,
        }
    }
}

/// Whether an item was killed or deleted.
pub fn gone(item: &Item) -> (r: bool)
    ensures
        r == is_gone(*item),
{
    let dead = match item.dead {
        Some(b) => b,
        None => false,
    };
    let deleted = match item.deleted {
        Some(b) => b,
        None => false,
    };
    dead || deleted
}

fn story_or_job(item: &Item) -> (r: bool)
    ensures
        r == is_story_or_job(*item),
{
    match &item.item_type {
        Some(t) => same_text(t.as_str(), "story") || same_text(t.as_str(), "job"),
        None => false,
    }
}

/// Keeps the stories and jobs that are neither dead nor deleted from a batch of fetches,
/// where a failed fetch is `None`.
pub fn listed(results: Vec<Option<Item>>) -> (r: Vec<Item>)
    ensures
        r@ == listed_stories(results@),
{
    let ghost all = results@;
    let mut r: Vec<Item> = Vec::new();
    for x in it: results.into_iter()
        invariant
            it.seq() == all,
            r@ == listed_stories(all.take(it.index() as int)),
    {
        assert(all.take(it.index() + 1).drop_last() =~= all.take(it.index() as int));
        match x {
            Some(item) => {
                if story_or_job(&item) && !gone(&item) {
                    r.push(item);
                }
            },
            None => {},
        }
    }
    assert(all.take(all.len() as int) =~= all);
    r
}

/// Keeps the items that are neither dead nor deleted from a batch of fetches, where a failed
/// fetch is `None`.
pub fn live(results: Vec<Option<Item>>) -> (r: Vec<Item>)
    ensures
        r@ == live_items(results@),
{
    let ghost all = results@;
    let mut r: Vec<Item> = Vec::new();
    for x in it: results.into_iter()
        invariant
            it.seq() == all,
            r@ == live_items(all.take(it.index() as int)),
    {
        assert(all.take(it.index() + 1).drop_last() =~= all.take(it.index() as int));
        match x {
            Some(item) => {
                if !gone(&item) {
                    r.push(item);
                }
            },
            None => {},
        }
    }
    assert(all.take(all.len() as int) =~= all);
    r
}

/// The child ids an item lists.
pub open spec fn kids_of(item: Item) -> Seq<u64> {
    match item.kids {
        Some(k) => k@,
        None => Seq::empty(),
    }
}

/// The child ids of all the items, item after item.
pub open spec fn kid_ids(items: Seq<Item>) -> Seq<u64>
    decreases items.len(),
{
    if items.len() == 0 {
        Seq::empty()
    } else {
        kid_ids(items.drop_last()) + kids_of(items.last())
    }
}

/// The child ids of all the items, item after item.
pub fn child_ids(items: &Vec<Item>) -> (r: Vec<u64>)
    ensures
        r@ == kid_ids(items@),
{
    let mut r: Vec<u64> = Vec::new();
    let n = items.len();
    let mut i: usize = 0;
    while i < n
        invariant
            n == items@.len(),
            i <= n,
            r@ == kid_ids(items@.take(i as int)),
        decreases n - i,
    {
        assert(items@.take(i + 1).drop_last() =~= items@.take(i as int));
        match &items[i].kids {
            Some(k) => {
                let ghost before = r@;
                let m = k.len();
                let mut j: usize = 0;
                while j < m
                    invariant
                        m == k@.len(),
                        j <= m,
                        r@ == before + k@.take(j as int),
                    decreases m - j,
                {
                    r.push(k[j]);
                    j = j + 1;
                    assert(r@ =~= before + k@.take(j as int));
                }
                assert(k@.take(m as int) =~= k@);
            },
            None => {
                assert(r@ =~= r@ + Seq::<u64>::empty());
            },
        }
        i = i + 1;
    }
    assert(items@.take(n as int) =~= items@);
    r
}

/// What the comment crawl asks for next.
pub enum CrawlStep {
    /// Fetch the items with these ids and report them with `CommentCrawl::advance`.
    Fetch(Vec<u64>),
    /// Every comment has been collected.
    Done,
}

/// The collection of a whole comment thread, one level of replies at a time: each level is
/// fetched, its dead and deleted comments dropped, and the replies to what is left make up
/// the next level.
pub struct CommentCrawl {
    collected: Vec<Item>,
}

impl View for CommentCrawl {
    type V = Seq<Item>;

    closed spec fn view(&self) -> Seq<Item> {
        self.collected@
    }
}

impl CommentCrawl {
    /// Starts the crawl below the top-level comment ids `kids`.
    pub fn start(kids: &[u64]) -> (r: (CommentCrawl, CrawlStep))
        ensures
            r.0@ == Seq::<Item>::empty(),
            kids@.len() == 0 ==> r.1 is Done,
            kids@.len() > 0 ==> (r.1 matches CrawlStep::Fetch(ids) && ids@ == kids@),
    {
        let crawl = CommentCrawl { collected: Vec::new() };
        if kids.len() == 0 {
            (crawl, CrawlStep::Done)
        } else {
            let mut ids: Vec<u64> = Vec::new();
            let mut i: usize = 0;
            while i < kids.len()
                invariant
                    i <= kids@.len(),
                    ids@ == kids@.take(i as int),
                decreases kids@.len() - i,
            {
                ids.push(kids[i]);
                i = i + 1;
                assert(ids@ =~= kids@.take(i as int));
            }
            assert(kids@.take(kids@.len() as int) =~= kids@);
            (crawl, CrawlStep::Fetch(ids))
        }
    }

    /// Takes the fetched level (a failed fetch is `None`): its live comments are collected, and
    /// their replies are asked for next, unless there are none.
    pub fn advance(self, fetched: Vec<Option<Item>>) -> (r: (CommentCrawl, CrawlStep))
        ensures
            r.0@ == self@ + live_items(fetched@),
            kid_ids(live_items(fetched@)).len() == 0 ==> r.1 is Done,
            kid_ids(live_items(fetched@)).len() > 0 ==> (r.1 matches CrawlStep::Fetch(ids) && ids@
                == kid_ids(live_items(fetched@))),
    {
        let mut level = live(fetched);
        let next = child_ids(&level);
        let mut collected = self.collected;
        collected.append(&mut level);
        let crawl = CommentCrawl { collected };
        if next.len() == 0 {
            (crawl, CrawlStep::Done)
        } else {
            (crawl, CrawlStep::Fetch(next))
        }
    }

    /// The comments collected so far, level after level.
    pub fn into_comments(self) -> (r: Vec<Item>)
        ensures
            r@ == self@,
    {
        self.collected
    }
}

/// Everything a crawl asks to fetch after a level is a reply to a comment it has just
/// collected, and nothing that was collected before is lost.
pub proof fn lemma_crawl_grows(before: Seq<Item>, fetched: Seq<Option<Item>>, k: int)
    requires
        0 <= k < kid_ids(live_items(fetched)).len(),
    ensures
        before.is_prefix_of(before + live_items(fetched)),
        exists|i: int|
            0 <= i < live_items(fetched).len() && kids_of(live_items(fetched)[i]).contains(
                kid_ids(live_items(fetched))[k],
            ),
{
    assert(before.is_prefix_of(before + live_items(fetched))) by {
        assert((before + live_items(fetched)).subrange(0, before.len() as int) =~= before);
    }
    lemma_kid_ids_source(live_items(fetched), k);
}

/// Each child id comes from the kids of one of the items.
pub proof fn lemma_kid_ids_source(items: Seq<Item>, k: int)
    requires
        0 <= k < kid_ids(items).len(),
    ensures
        exists|i: int| 0 <= i < items.len() && kids_of(items[i]).contains(kid_ids(items)[k]),
    decreases items.len(),
{
    let front = items.drop_last();
    let f = kid_ids(front);
    if k < f.len() {
        lemma_kid_ids_source(front, k);
        let i = choose|i: int| 0 <= i < front.len() && kids_of(front[i]).contains(kid_ids(front)[k]);
        assert(items[i] == front[i]);
    } else {
        let last = items.last();
        assert(kid_ids(items)[k] == kids_of(last)[k - f.len()]);
        assert(kids_of(items[items.len() - 1]).contains(kid_ids(items)[k]));
    }
}

/// A story list never shows a failed fetch, a dead or deleted item, or an item that is
/// neither a story nor a job, and never shows more items than were fetched.
pub proof fn lemma_listed_stories_shape(results: Seq<Option<Item>>)
    ensures
        listed_stories(results).len() <= results.len(),
        forall|i: int|
            0 <= i < listed_stories(results).len() ==> is_story_or_job(#[trigger] listed_stories(results)[i])
                && !is_gone(listed_stories(results)[i]),
    decreases results.len(),
{
    if results.len() > 0 {
        lemma_listed_stories_shape(results.drop_last());
    }
}

/// The comments kept from a fetch are never dead or deleted, and are never more than were
/// fetched.
pub proof fn lemma_live_items_shape(results: Seq<Option<Item>>)
    ensures
        live_items(results).len() <= results.len(),
        forall|i: int| 0 <= i < live_items(results).len() ==> !is_gone(#[trigger] live_items(results)[i]),
    decreases results.len(),
{
    if results.len() > 0 {
        lemma_live_items_shape(results.drop_last());
    }
}

/// What a whole crawl collects below the ids `ids` when `fetch` answers each id (`None` for a
/// failed fetch), over at most `levels` levels: the live comments of this level, then, below
/// them, what the replies they list lead to. A failed, dead or deleted comment adds nothing,
/// and neither does anything below it.
pub open spec fn crawl_outcome(ids: Seq<u64>, fetch: spec_fn(u64) -> Option<Item>, levels: nat) -> Seq<Item>
    decreases levels,
{
    if levels == 0 || ids.len() == 0 {
        Seq::empty()
    } else {
        let got = live_items(ids.map_values(fetch));
        got + crawl_outcome(kid_ids(got), fetch, (levels - 1) as nat)
    }
}

/// The comments collected and the ids asked for after `n` steps of a crawl that starts below
/// `kids` and has every request answered by `fetch`: each step is what `CommentCrawl::advance`
/// does with the answers to the ids asked for.
pub open spec fn crawl_after(kids: Seq<u64>, fetch: spec_fn(u64) -> Option<Item>, n: nat) -> (Seq<Item>, Seq<u64>)
    decreases n,
{
    if n == 0 {
        (Seq::empty(), kids)
    } else {
        let st = crawl_after(kids, fetch, (n - 1) as nat);
        let got = live_items(st.1.map_values(fetch));
        (st.0 + got, kid_ids(got))
    }
}

proof fn lemma_live_items_empty(results: Seq<Option<Item>>)
    requires
        results.len() == 0,
    ensures
        live_items(results) == Seq::<Item>::empty(),
        kid_ids(live_items(results)) == Seq::<u64>::empty(),
{
}

/// What a crawl has collected after `n` steps, followed by what the ids it asks for lead to
/// over `m` more levels, is what the whole crawl collects over `n + m` levels.
pub proof fn lemma_crawl_split(kids: Seq<u64>, fetch: spec_fn(u64) -> Option<Item>, n: nat, m: nat)
    ensures
        crawl_after(kids, fetch, n).0 + crawl_outcome(crawl_after(kids, fetch, n).1, fetch, m)
            == crawl_outcome(kids, fetch, n + m),
    decreases n,
{
    if n == 0 {
        assert(Seq::<Item>::empty() + crawl_outcome(kids, fetch, m) =~= crawl_outcome(kids, fetch, m));
    } else {
        let st = crawl_after(kids, fetch, (n - 1) as nat);
        lemma_crawl_split(kids, fetch, (n - 1) as nat, m + 1);
        let got = live_items(st.1.map_values(fetch));
        if st.1.len() == 0 {
            lemma_live_items_empty(st.1.map_values(fetch));
            assert(crawl_outcome(kid_ids(got), fetch, m) == Seq::<Item>::empty());
            assert(st.0 + got + crawl_outcome(kid_ids(got), fetch, m) =~= st.0 + crawl_outcome(st.1, fetch, m + 1));
        } else {
            assert(crawl_outcome(st.1, fetch, m + 1) == got + crawl_outcome(kid_ids(got), fetch, m));
            assert(st.0 + got + crawl_outcome(kid_ids(got), fetch, m) =~= st.0 + crawl_outcome(st.1, fetch, m + 1));
        }
        assert((n - 1) as nat + (m + 1) == n + m);
    }
}

/// A crawl whose requests are all answered by `fetch` has collected, after `n` steps, exactly
/// what the whole crawl collects over `n` levels; once it asks for nothing more, further levels
/// add nothing.
pub proof fn lemma_crawl_run(kids: Seq<u64>, fetch: spec_fn(u64) -> Option<Item>, n: nat, m: nat)
    ensures
        crawl_after(kids, fetch, n).0 == crawl_outcome(kids, fetch, n),
        crawl_after(kids, fetch, n).1.len() == 0 ==> crawl_outcome(kids, fetch, n + m) == crawl_outcome(kids, fetch, n),
{
    lemma_crawl_split(kids, fetch, n, 0);
    assert(crawl_after(kids, fetch, n).0 + Seq::<Item>::empty() =~= crawl_after(kids, fetch, n).0);
    lemma_crawl_split(kids, fetch, n, m);
    if crawl_after(kids, fetch, n).1.len() == 0 {
        if m > 0 {
            assert(crawl_outcome(crawl_after(kids, fetch, n).1, fetch, m) == Seq::<Item>::empty());
        }
        assert(crawl_after(kids, fetch, n).0 + crawl_outcome(crawl_after(kids, fetch, n).1, fetch, m)
            =~= crawl_after(kids, fetch, n).0);
    }
}

/// Listing a batch of fetches in two parts gives the listing of the first part followed by
/// that of the second: the list keeps the order of the fetches.
pub proof fn lemma_listed_stories_concat(a: Seq<Option<Item>>, b: Seq<Option<Item>>)
    ensures
        listed_stories(a + b) == listed_stories(a) + listed_stories(b),
    decreases b.len(),
{
    if b.len() == 0 {
        assert(a + b =~= a);
        assert(listed_stories(a) + listed_stories(b) =~= listed_stories(a));
    } else {
        assert((a + b).drop_last() =~= a + b.drop_last());
        assert((a + b).last() == b.last());
        lemma_listed_stories_concat(a, b.drop_last());
        let x = listed_stories(a);
        let y = listed_stories(b.drop_last());
        assert((x + y).push(b.last()->0) =~= x + y.push(b.last()->0));
    }
}

/// A single fetch is listed exactly when it succeeded with an item whose type is "story" or
/// "job" and which is not marked dead or deleted; nothing else about the item matters.
pub proof fn lemma_listed_stories_single(item: Item)
    ensures
        listed_stories(seq![Some(item)]) == if (match item.item_type {
            Some(t) => t@ == "story"@ || t@ == "job"@,
            None => false,
        }) && item.dead != Some(true) && item.deleted != Some(true) {
            seq![item]
        } else {
            Seq::<Item>::empty()
        },
        listed_stories(seq![None::<Item>]) == Seq::<Item>::empty(),
{
    let one = seq![Some(item)];
    let none = seq![None::<Item>];
    assert(one.len() == 1 && one.last() == Some(item));
    assert(none.len() == 1 && none.last() == None::<Item>);
    assert(one.drop_last() =~= Seq::<Option<Item>>::empty());
    assert(none.drop_last() =~= Seq::<Option<Item>>::empty());
    assert(listed_stories(Seq::<Option<Item>>::empty()) == Seq::<Item>::empty());
    assert(Seq::<Item>::empty().push(item) =~= seq![item]);
    assert(is_story_or_job(item) == (match item.item_type {
        Some(t) => t@ == "story"@ || t@ == "job"@,
        None => false,
    }));
}

/// Every fetched item whose type is "story" or "job" and which is not marked dead or deleted
/// is listed.
pub proof fn lemma_listed_stories_complete(results: Seq<Option<Item>>, i: int)
    requires
        0 <= i < results.len(),
        results[i] matches Some(item) && (match item.item_type {
            Some(t) => t@ == "story"@ || t@ == "job"@,
            None => false,
        }) && item.dead != Some(true) && item.deleted != Some(true),
    ensures
        listed_stories(results).contains(results[i]->0),
{
    let item = results[i]->0;
    let front = results.subrange(0, i);
    let back = results.subrange(i + 1, results.len() as int);
    assert(results =~= front + seq![Some(item)] + back);
    lemma_listed_stories_concat(front + seq![Some(item)], back);
    lemma_listed_stories_concat(front, seq![Some(item)]);
    lemma_listed_stories_single(item);
    let l = listed_stories(front);
    assert(listed_stories(results)[l.len() as int] == item);
}

/// Keeping the live items of a batch in two parts gives those of the first part followed by
/// those of the second.
pub proof fn lemma_live_items_concat(a: Seq<Option<Item>>, b: Seq<Option<Item>>)
    ensures
        live_items(a + b) == live_items(a) + live_items(b),
    decreases b.len(),
{
    if b.len() == 0 {
        assert(a + b =~= a);
        assert(live_items(a) + live_items(b) =~= live_items(a));
    } else {
        assert((a + b).drop_last() =~= a + b.drop_last());
        assert((a + b).last() == b.last());
        lemma_live_items_concat(a, b.drop_last());
        let x = live_items(a);
        let y = live_items(b.drop_last());
        assert((x + y).push(b.last()->0) =~= x + y.push(b.last()->0));
    }
}

/// A single fetch is kept exactly when it succeeded with an item not marked dead or deleted.
pub proof fn lemma_live_items_single(item: Item)
    ensures
        live_items(seq![Some(item)]) == if item.dead != Some(true) && item.deleted != Some(true) {
            seq![item]
        } else {
            Seq::<Item>::empty()
        },
        live_items(seq![None::<Item>]) == Seq::<Item>::empty(),
{
    let one = seq![Some(item)];
    let none = seq![None::<Item>];
    assert(one.len() == 1 && one.last() == Some(item));
    assert(none.len() == 1 && none.last() == None::<Item>);
    assert(one.drop_last() =~= Seq::<Option<Item>>::empty());
    assert(none.drop_last() =~= Seq::<Option<Item>>::empty());
    assert(live_items(Seq::<Option<Item>>::empty()) == Seq::<Item>::empty());
    assert(Seq::<Item>::empty().push(item) =~= seq![item]);
}

/// The child ids of two groups of items are those of the first group followed by those of
/// the second.
pub proof fn lemma_kid_ids_concat(a: Seq<Item>, b: Seq<Item>)
    ensures
        kid_ids(a + b) == kid_ids(a) + kid_ids(b),
    decreases b.len(),
{
    if b.len() == 0 {
        assert(a + b =~= a);
        assert(kid_ids(a) + kid_ids(b) =~= kid_ids(a));
    } else {
        assert((a + b).drop_last() =~= a + b.drop_last());
        assert((a + b).last() == b.last());
        lemma_kid_ids_concat(a, b.drop_last());
        assert(kid_ids(a) + kid_ids(b.drop_last()) + kids_of(b.last()) =~= kid_ids(a) + (kid_ids(
            b.drop_last(),
        ) + kids_of(b.last())));
    }
}

/// The child ids of one item are its kids list, or nothing without one.
pub proof fn lemma_kid_ids_single(item: Item)
    ensures
        kid_ids(seq![item]) == match item.kids {
            Some(k) => k@,
            None => Seq::<u64>::empty(),
        },
{
    let one = seq![item];
    assert(one.drop_last() =~= Seq::<Item>::empty());
    assert(one.last() == item);
    assert(kid_ids(Seq::<Item>::empty()) == Seq::<u64>::empty());
    assert(Seq::<u64>::empty() + kids_of(item) =~= kids_of(item));
}

} // verus!

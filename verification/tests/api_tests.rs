use hn_cli::api::{
    api_base, child_ids, gone, ids_to_fetch, item_url, list_url, listed, live, user_url,
    CommentCrawl, CrawlStep, Item, StoryList,
};

fn item(id: u64) -> Item {
    Item {
        id,
        item_type: None,
        by: None,
        time: None,
        title: None,
        url: None,
        text: None,
        score: None,
        descendants: None,
        parent: None,
        kids: None,
        parts: None,
        dead: None,
        deleted: None,
    }
}

fn story(id: u64, kind: &str) -> Item {
    let mut it = item(id);
    it.item_type = Some(kind.to_string());
    it
}

fn with_kids(mut it: Item, kids: &[u64]) -> Item {
    it.kids = Some(kids.to_vec());
    it
}

#[test]
fn story_list_names() {
    assert_eq!(StoryList::from_name("top"), Some(StoryList::Top));
    assert_eq!(StoryList::from_name("new"), Some(StoryList::New));
    assert_eq!(StoryList::from_name("best"), Some(StoryList::Best));
    assert_eq!(StoryList::from_name("ask"), Some(StoryList::Ask));
    assert_eq!(StoryList::from_name("show"), Some(StoryList::Show));
    assert_eq!(StoryList::from_name("jobs"), Some(StoryList::Jobs));
    assert_eq!(StoryList::from_name("job"), None);
    assert_eq!(StoryList::from_name(""), None);
}

#[test]
fn addresses() {
    let base = api_base();
    assert_eq!(base, "https://hacker-news.firebaseio.com/v0");
    assert_eq!(
        item_url(&base, 8863),
        "https://hacker-news.firebaseio.com/v0/item/8863.json"
    );
    assert_eq!(item_url("b", 0), "b/item/0.json");
    assert_eq!(item_url("b", u64::MAX), "b/item/18446744073709551615.json");
    assert_eq!(user_url(&base, "jl"), "https://hacker-news.firebaseio.com/v0/user/jl.json");
    assert_eq!(list_url(&base, StoryList::Top), "https://hacker-news.firebaseio.com/v0/topstories.json");
    assert_eq!(list_url("b", StoryList::New), "b/newstories.json");
    assert_eq!(list_url("b", StoryList::Best), "b/beststories.json");
    assert_eq!(list_url("b", StoryList::Ask), "b/askstories.json");
    assert_eq!(list_url("b", StoryList::Show), "b/showstories.json");
    assert_eq!(list_url("b", StoryList::Jobs), "b/jobstories.json");
}

#[test]
fn fetch_limit() {
    assert_eq!(ids_to_fetch(&[5, 6, 7], 2), vec![5, 6]);
    assert_eq!(ids_to_fetch(&[5, 6, 7], 30), vec![5, 6, 7]);
    assert_eq!(ids_to_fetch(&[5, 6, 7], 0), Vec::<u64>::new());
    assert_eq!(ids_to_fetch(&[], 3), Vec::<u64>::new());
}

#[test]
fn listing_keeps_live_stories_and_jobs() {
    let mut dead = story(3, "story");
    dead.dead = Some(true);
    let mut deleted = story(4, "job");
    deleted.deleted = Some(true);
    let mut alive = story(6, "story");
    alive.dead = Some(false);
    let results = vec![
        Some(story(1, "story")),
        None,
        Some(story(2, "comment")),
        Some(dead),
        Some(deleted),
        Some(story(5, "job")),
        Some(alive),
        Some(item(7)),
        Some(story(8, "poll")),
    ];
    let kept: Vec<u64> = listed(results).iter().map(|i| i.id).collect();
    assert_eq!(kept, vec![1, 5, 6]);
}

#[test]
fn live_drops_dead_and_deleted() {
    let mut dead = item(2);
    dead.dead = Some(true);
    let mut deleted = item(3);
    deleted.deleted = Some(true);
    assert!(gone(&dead));
    assert!(gone(&deleted));
    assert!(!gone(&item(1)));
    let kept: Vec<u64> = live(vec![Some(item(1)), Some(dead), None, Some(deleted), Some(item(4))])
        .iter()
        .map(|i| i.id)
        .collect();
    assert_eq!(kept, vec![1, 4]);
}

#[test]
fn child_ids_in_order() {
    let items = vec![with_kids(item(1), &[10, 11]), item(2), with_kids(item(3), &[12])];
    assert_eq!(child_ids(&items), vec![10, 11, 12]);
}

#[test]
fn crawl_without_kids_is_done() {
    let (crawl, step) = CommentCrawl::start(&[]);
    assert!(matches!(step, CrawlStep::Done));
    assert!(crawl.into_comments().is_empty());
}

#[test]
fn crawl_collects_levels_in_order() {
    let (crawl, step) = CommentCrawl::start(&[1, 2]);
    match &step {
        CrawlStep::Fetch(ids) => assert_eq!(ids, &vec![1, 2]),
        CrawlStep::Done => panic!("expected a fetch"),
    }
    let mut dead = with_kids(item(2), &[30]);
    dead.dead = Some(true);
    let (crawl, step) = crawl.advance(vec![Some(with_kids(item(1), &[10, 11])), Some(dead)]);
    match &step {
        CrawlStep::Fetch(ids) => assert_eq!(ids, &vec![10, 11]),
        CrawlStep::Done => panic!("expected a fetch"),
    }
    let (crawl, step) = crawl.advance(vec![Some(item(10)), None]);
    assert!(matches!(step, CrawlStep::Done));
    let ids: Vec<u64> = crawl.into_comments().iter().map(|i| i.id).collect();
    assert_eq!(ids, vec![1, 10]);
}

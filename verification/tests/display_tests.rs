use hn_cli::api::{Item, User};
use hn_cli::display::{
    comment_json, comment_tree_lines_at, render_html, story_detail_at, story_domain, story_json, story_lines_at,
    story_list_json, story_summary_at, term_width, thread_lines_at, time_ago, time_ago_at,
    user_json, user_profile, width_or_default, JsonField, JsonScalar, ThreadLine,
};
use hn_cli::text::{decimal_string, lines_of, tidy_lines};

fn item(id: u64) -> Item {
    Item {
        id,
        item_type: None,
        by: None,
        time: None,
        title: None,
        url: None,
        text: None,
        score: None,
        descendants: None,
        parent: None,
        kids: None,
        parts: None,
        dead: None,
        deleted: None,
    }
}

fn comment(id: u64, by: &str, text: &str, kids: &[u64]) -> Item {
    let mut c = item(id);
    c.by = Some(by.to_string());
    c.text = Some(text.to_string());
    if !kids.is_empty() {
        c.kids = Some(kids.to_vec());
    }
    c
}

fn keys(fields: &[JsonField]) -> Vec<String> {
    fields.iter().map(|f| f.key.clone()).collect()
}

fn shown(lines: &[ThreadLine]) -> Vec<String> {
    lines
        .iter()
        .map(|l| match l {
            ThreadLine::Header { indent, by, time } => format!("{}{} {}", indent, by, time),
            ThreadLine::Body(t) => t.clone(),
            ThreadLine::Gap => String::new(),
        })
        .collect()
}

#[test]
fn domain_of_story_urls() {
    let d = |u: &str| story_domain(&Some(u.to_string()));
    assert_eq!(d("https://www.example.com/path/x"), "example.com");
    assert_eq!(d("http://news.ycombinator.com"), "news.ycombinator.com");
    assert_eq!(d("example.org/a/b"), "example.org");
    assert_eq!(d("ftp://www.a.b/"), "a.b");
    assert_eq!(d("https://"), "");
    assert_eq!(d("www."), "");
    assert_eq!(d("https://www.www.x.y/z"), "www.x.y");
    assert_eq!(d("https://ex.com/a://b"), "ex.com");
    assert_eq!(story_domain(&None), "");
}

#[test]
fn domain_has_no_slash() {
    for u in ["a/b/c", "https://x/y", "://", "/", "https:///x", "ééé://wwwé/"] {
        assert!(!story_domain(&Some(u.to_string())).contains('/'));
    }
}

#[test]
fn relative_times() {
    assert_eq!(time_ago_at(100, 100), "just now");
    assert_eq!(time_ago_at(200, 100), "just now");
    assert_eq!(time_ago_at(100, 130), "30s ago");
    assert_eq!(time_ago_at(0, 59), "59s ago");
    assert_eq!(time_ago_at(0, 60), "1m ago");
    assert_eq!(time_ago_at(0, 3599), "59m ago");
    assert_eq!(time_ago_at(0, 3600), "1h ago");
    assert_eq!(time_ago_at(0, 86399), "23h ago");
    assert_eq!(time_ago_at(0, 86400), "1d ago");
    assert_eq!(time_ago_at(0, 2591999), "29d ago");
    assert_eq!(time_ago_at(0, 2592000), "Jan 01");
    assert_eq!(time_ago_at(1700000000, 1800000000), "Nov 14");
}

#[test]
fn relative_time_by_clock() {
    assert_eq!(time_ago(u64::MAX), "just now");
    let t = time_ago(0);
    assert_eq!(t, "Jan 01");
}

#[test]
fn decimal_numbers() {
    assert_eq!(decimal_string(0), "0");
    assert_eq!(decimal_string(7), "7");
    assert_eq!(decimal_string(1234567890), "1234567890");
    assert_eq!(decimal_string(u64::MAX), u64::MAX.to_string());
}

#[test]
fn tidy_collapses_blank_runs() {
    assert_eq!(tidy_lines("  a  \n\n\n\n  b\n"), "a\n\nb");
    assert_eq!(tidy_lines("\n\n x \r\n y"), "x\ny");
    assert_eq!(tidy_lines(""), "");
    assert_eq!(tidy_lines(" \n \t\n"), "");
    assert_eq!(tidy_lines("a\u{a0}\n\u{3000}b"), "a\nb");
}

#[test]
fn tidy_shape() {
    for s in ["\n\n\n\na\n\n\n\nb\n\n\n", "  x\n \n \n y  ", "\t", "a\r\n\r\n\r\nb"] {
        let t = tidy_lines(s);
        assert!(!t.contains("\n\n\n"));
        assert_eq!(t.trim(), t);
    }
}

#[test]
fn lines_like_std() {
    for s in ["", "a", "a\n", "a\r\nb", "\n", "\n\n", "a\r", "x\ny\r\nz\r"] {
        let ours = lines_of(s);
        let std: Vec<String> = s.lines().map(|l| l.to_string()).collect();
        assert_eq!(ours, std, "{:?}", s);
    }
}

#[test]
fn html_rendering() {
    assert_eq!(render_html("<p>Hello world</p>", 80), "Hello world");
    assert_eq!(render_html("<p>one</p><p>two</p>", 80), "one\n\ntwo");
    assert_eq!(render_html("plain &amp; simple", 80), "plain & simple");
}

#[test]
fn html_rendering_too_narrow_keeps_source() {
    assert_eq!(render_html("  <i>x</i>  \n\n\n y", 0), "<i>x</i>\n\ny");
}

#[test]
fn width_default() {
    assert_eq!(width_or_default(None), 80);
    assert_eq!(width_or_default(Some(120)), 120);
    let w = term_width();
    assert!(w <= u16::MAX as usize);
}

#[test]
fn summaries_fill_defaults() {
    let s = story_summary_at(&item(1), 10);
    assert_eq!(s.title, "(no title)");
    assert_eq!(s.url, None);
    assert_eq!(s.points, "0 points");
    assert_eq!(s.by, "unknown");
    assert_eq!(s.time, "");
    assert_eq!(s.comments, "0");

    let mut it = item(2);
    it.title = Some("Title".to_string());
    it.url = Some("https://www.rust-lang.org/learn".to_string());
    it.score = Some(-5);
    it.by = Some("pg".to_string());
    it.time = Some(100);
    it.descendants = Some(42);
    let s = story_summary_at(&it, 400);
    assert_eq!(s.title, "Title");
    assert_eq!(s.url.as_deref(), Some("https://www.rust-lang.org/learn"));
    assert_eq!(s.points, "-5 points");
    assert_eq!(s.by, "pg");
    assert_eq!(s.time, "5m ago");
    assert_eq!(s.comments, "42");
}

#[test]
fn story_list_numbering() {
    let mut a = item(11);
    a.url = Some("http://www.a.com/x".to_string());
    let b = item(12);
    let lines = story_lines_at(&[a, b], 1, 0);
    assert_eq!(lines.len(), 2);
    assert_eq!(lines[0].number, "1.");
    assert_eq!(lines[1].number, "2.");
    assert_eq!(lines[0].domain, "a.com");
    assert_eq!(lines[1].domain, "");
    assert_eq!(lines[0].id, "11");
    assert_eq!(lines[1].id, "12");
}

#[test]
fn comment_thread_layout() {
    let mut story = item(1);
    story.kids = Some(vec![10, 20, 99]);
    let mut dead = comment(20, "ghost", "<p>gone</p>", &[21]);
    dead.dead = Some(true);
    let comments = vec![
        comment(10, "alice", "<p>first</p>", &[11]),
        comment(11, "bob", "<p>reply</p>", &[]),
        dead,
        comment(21, "carol", "<p>hidden</p>", &[]),
    ];
    let lines = thread_lines_at(&story, &comments, 80, 0);
    assert_eq!(
        shown(&lines),
        vec!["alice ", "first", "  bob ", "  reply", ""]
    );
}

#[test]
fn comment_thread_stops_on_cycles() {
    let mut story = item(1);
    story.kids = Some(vec![10]);
    let comments = vec![comment(10, "a", "x", &[11]), comment(11, "b", "y", &[10])];
    let lines = thread_lines_at(&story, &comments, 80, 0);
    assert_eq!(shown(&lines), vec!["a ", "x", "  b ", "  y", "    a ", "    x", ""]);
}

#[test]
fn story_page() {
    let mut story = item(1);
    story.text = Some("<p>Ask HN</p>".to_string());
    story.kids = Some(vec![2]);
    let d = story_detail_at(&story, &vec![comment(2, "z", "hi", &[])], 10, 0);
    assert_eq!(d.body.as_deref(), Some("Ask HN"));
    assert_eq!(d.rule.as_deref(), Some("----------"));
    assert_eq!(shown(&d.thread), vec!["z ", "hi", ""]);
    let d = story_detail_at(&story, &vec![], 10, 0);
    assert_eq!(d.rule, None);
    assert!(d.thread.is_empty());
    story.text = Some(String::new());
    let d = story_detail_at(&story, &vec![], 10, 0);
    assert_eq!(d.body, None);
}

#[test]
fn profiles() {
    let user = User {
        id: "pg".to_string(),
        created: 0,
        karma: Some(155111),
        about: Some("<p>Bug fixer.</p>".to_string()),
        submitted: Some(vec![8863]),
    };
    let p = user_profile(&user, 80);
    assert_eq!(p.id, "pg");
    assert_eq!(p.karma.as_deref(), Some("155111"));
    assert_eq!(p.created.as_deref(), Some("1970-01-01"));
    assert_eq!(p.about.as_deref(), Some("Bug fixer."));
    let user = User {
        id: "x".to_string(),
        created: u64::MAX,
        karma: None,
        about: Some(String::new()),
        submitted: None,
    };
    let p = user_profile(&user, 80);
    assert_eq!(p.karma, None);
    assert_eq!(p.about, None);
}

#[test]
fn json_members() {
    let mut story = item(8863);
    story.title = Some("My YC app".to_string());
    story.score = Some(111);
    story.text = Some("t".to_string());
    let fields = story_list_json(&[story.clone()]);
    assert_eq!(keys(&fields[0]), vec!["id", "title", "score"]);
    let page = story_json(&story, &[comment(2, "a", "b", &[])]);
    assert_eq!(keys(&page.fields), vec!["id", "title", "score", "text"]);
    assert_eq!(keys(&page.comments[0]), vec!["id", "by", "text"]);
    assert!(matches!(page.fields[2].value, JsonScalar::Signed(111)));
    let c = comment_json(&item(5));
    assert_eq!(keys(&c), vec!["id"]);
    let u = user_json(&User { id: "u".to_string(), created: 3, karma: None, about: None, submitted: None });
    assert_eq!(keys(&u), vec!["id", "created"]);
    assert!(matches!(u[1].value, JsonScalar::Unsigned(3)));
}

#[test]
fn nested_comment_tree() {
    let all = vec![
        comment(1, "a", "<p>top</p>", &[2]),
        comment(2, "b", "<p>l1</p><p>l2</p>", &[]),
    ];
    let lines = comment_tree_lines_at(&all[0], &all, 1, 80, 0);
    assert_eq!(shown(&lines), vec!["  a ", "  top", "    b ", "    l1", "    ", "    l2"]);
    let mut dead = all[0].clone();
    dead.deleted = Some(true);
    assert!(comment_tree_lines_at(&dead, &all, 0, 80, 0).is_empty());
}

#[test]
fn narrow_comment_width() {
    let all = vec![comment(1, "a", "<p>x</p>", &[])];
    let lines = comment_tree_lines_at(&all[0], &all, 3, 4, 0);
    assert_eq!(shown(&lines), vec!["      a ", "      <p>x</p>"]);
}

#[test]
fn comment_tree_without_list() {
    let c = comment(1, "a", "<p>alone</p>", &[]);
    let lines = comment_tree_lines_at(&c, &[], 0, 80, 0);
    assert_eq!(shown(&lines), vec!["a ", "alone", ""]);
}

#[test]
fn comment_outside_list_keeps_its_reply() {
    let c = comment(1, "a", "<p>top</p>", &[2]);
    let all = vec![comment(2, "b", "<p>reply</p>", &[])];
    let lines = comment_tree_lines_at(&c, &all, 0, 80, 0);
    assert_eq!(shown(&lines), vec!["a ", "top", "  b ", "  reply", ""]);
}

#[test]
fn dead_comment_at_any_depth() {
    let mut c = comment(1, "a", "x", &[]);
    c.dead = Some(true);
    assert!(comment_tree_lines_at(&c, &[], usize::MAX, 80, 0).is_empty());
}

#[test]
fn story_list_numbers_up_to_the_last_usize() {
    let lines = story_lines_at(&[item(1)], usize::MAX, 0);
    assert_eq!(lines[0].number, format!("{}.", usize::MAX));
}

#[test]
fn control_characters_are_dropped() {
    assert_eq!(render_html("<p>a\u{1}b &#1;c</p>", 80), "ab c");
    let long = format!("<p>{}\u{1}{}</p>", "x".repeat(30), "y".repeat(30));
    let r = render_html(&long, 10);
    assert!(!r.contains('\u{1}'));
}

#[test]
fn rendered_lines_are_trimmed() {
    for s in ["<p>  a  </p><p> b </p>", "x  \n   y", "<pre>  indented\n  lines  </pre>"] {
        let r = render_html(s, 40);
        for line in r.lines() {
            assert_eq!(line, line.trim());
        }
    }
}

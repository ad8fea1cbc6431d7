use grid_view_core::ast::{apply_command, ListItem, Node, Page, TransformCommand};
use grid_view_core::converter::{MarkdownConverter, ScrapboxConverter};
use grid_view_core::description_writer::{DescriptionWriter, Kind, Line};
use grid_view_core::image_url_collector::{ImageUrlCollector, ImageUrlRewriter};

fn text(s: &str) -> Node {
    Node::Text { value: s.to_string() }
}

fn image(s: &str) -> Node {
    Node::Image { uri: s.to_string() }
}

fn para(children: Vec<Node>) -> Node {
    Node::Paragraph { children }
}

fn frags(lines: &Vec<Vec<Line>>) -> Vec<Vec<(Kind, String)>> {
    lines
        .iter()
        .map(|l| l.iter().map(|f| (f.kind, f.value.clone())).collect())
        .collect()
}

fn describe(page: &Page) -> Vec<Vec<(Kind, String)>> {
    let mut w = DescriptionWriter::new();
    w.visit(page);
    frags(&w.lines)
}

fn collect(page: &Page) -> Vec<String> {
    let mut c = ImageUrlCollector::new();
    c.visit(page);
    c.urls
}

fn sorted(mut v: Vec<String>) -> Vec<String> {
    v.sort();
    v
}

fn pairs(p: &[(&str, &str)]) -> Vec<(String, String)> {
    p.iter().map(|(a, b)| (a.to_string(), b.to_string())).collect()
}

fn image_page() -> Page {
    Page {
        nodes: vec![
            para(vec![image("a.png"), text("x")]),
            Node::List {
                items: vec![ListItem { children: vec![image("b.png")] }, ListItem {
                    children: vec![para(vec![image("a.png")])],
                }],
            },
        ],
    }
}

#[test]
fn code_block_truncation() {
    let code: Vec<String> = (1..=10).map(|i| format!("line {}", i)).collect();
    let page = Page {
        nodes: vec![para(vec![]), Node::CodeBlock { file_name: "main.rs".to_string(), lines: code }],
    };
    let d = describe(&page);
    assert_eq!(d.len(), 6);
    assert!(d[0].is_empty());
    for i in 1..6 {
        assert_eq!(d[i], vec![(Kind::Code, format!("line {}", i))]);
    }
}

#[test]
fn mixed_content() {
    let page = Page {
        nodes: vec![
            Node::Heading { text: "Heading".to_string(), level: 1 },
            para(vec![
                text("Some "),
                Node::ExternalLink { title: Some("External Link".to_string()), url: "url".to_string() },
                text(" text"),
            ]),
        ],
    };
    let d = describe(&page);
    assert_eq!(
        d,
        vec![
            vec![(Kind::Emphasis, "Heading".to_string())],
            vec![
                (Kind::Normal, "Some ".to_string()),
                (Kind::Link, "External Link".to_string()),
                (Kind::Normal, " text".to_string()),
            ],
        ]
    );
}

#[test]
fn image_collection_then_partial_rewrite() {
    let mut page = Page { nodes: vec![para(vec![image("a.png"), image("b.png"), image("a.png")])] };
    assert_eq!(collect(&page), vec!["a.png".to_string(), "b.png".to_string()]);
    let rewriter = ImageUrlRewriter::new(pairs(&[("a.png", "https://x/a.png")]));
    rewriter.visit(&mut page);
    match &page.nodes[0] {
        Node::Paragraph { children } => {
            let uris: Vec<String> = children
                .iter()
                .map(|n| match n {
                    Node::Image { uri } => uri.clone(),
                    _ => panic!("not an image"),
                })
                .collect();
            assert_eq!(uris, vec!["https://x/a.png", "b.png", "https://x/a.png"]);
        },
        _ => panic!("not a paragraph"),
    }
    assert_eq!(sorted(collect(&page)), vec!["b.png".to_string(), "https://x/a.png".to_string()]);
}

#[test]
fn passes_are_deterministic() {
    let page = image_page();
    assert_eq!(describe(&page), describe(&page));
    assert_eq!(collect(&page), collect(&page));
    let mut p1 = image_page();
    let mut p2 = image_page();
    let r = ImageUrlRewriter::new(pairs(&[("b.png", "c.png")]));
    r.visit(&mut p1);
    r.visit(&mut p2);
    assert_eq!(collect(&p1), collect(&p2));
    assert_eq!(describe(&p1), describe(&p2));
}

#[test]
fn description_is_bounded() {
    let mut nodes = Vec::new();
    for i in 0..20 {
        nodes.push(para(vec![text(&format!("p{}", i))]));
        nodes.push(para(vec![]));
    }
    let page = Page { nodes };
    let d = describe(&page);
    assert_eq!(d.len(), 6);
    for i in 0..d.len() - 1 {
        assert!(!(d[i].is_empty() && d[i + 1].is_empty()));
    }
    assert_eq!(d[0], vec![(Kind::Normal, "p0".to_string())]);
    assert_eq!(d[4], vec![(Kind::Normal, "p4".to_string())]);
    assert!(d[5].is_empty());
}

#[test]
fn empty_paragraphs_share_one_line() {
    let page = Page { nodes: vec![para(vec![]), para(vec![]), para(vec![text("a")])] };
    assert_eq!(describe(&page), vec![vec![(Kind::Normal, "a".to_string())]]);
}

#[test]
fn empty_page_has_no_lines() {
    assert!(describe(&Page { nodes: vec![] }).is_empty());
    assert!(collect(&Page { nodes: vec![] }).is_empty());
}

#[test]
fn collect_after_rewrite_maps_each_reference() {
    let mut page = image_page();
    let before = collect(&page);
    let map = pairs(&[("a.png", "A"), ("zzz", "Z")]);
    let rewriter = ImageUrlRewriter::new(map);
    rewriter.visit(&mut page);
    let expected: Vec<String> = before.iter().map(|u| if u == "a.png" { "A".to_string() } else { u.clone() }).collect();
    assert_eq!(sorted(collect(&page)), sorted(expected));
}

#[test]
fn collecting_twice_adds_nothing() {
    let page = image_page();
    let mut c = ImageUrlCollector::new();
    c.visit(&page);
    let first = c.urls.clone();
    c.visit(&page);
    assert_eq!(c.urls, first);
    assert_eq!(first, vec!["a.png".to_string(), "b.png".to_string()]);
}

#[test]
fn empty_or_unrelated_mapping_changes_nothing() {
    let mut page = image_page();
    ImageUrlRewriter::new(vec![]).visit(&mut page);
    assert_eq!(collect(&page), vec!["a.png".to_string(), "b.png".to_string()]);
    ImageUrlRewriter::new(pairs(&[("c.png", "d.png")])).visit(&mut page);
    assert_eq!(collect(&page), vec!["a.png".to_string(), "b.png".to_string()]);
}

#[test]
fn first_entry_of_a_repeated_key_counts() {
    let mut page = Page { nodes: vec![image("a")] };
    ImageUrlRewriter::new(pairs(&[("a", "first"), ("a", "second")])).visit(&mut page);
    assert_eq!(collect(&page), vec!["first".to_string()]);
}

#[test]
fn leaf_kinds_are_tagged() {
    let page = Page {
        nodes: vec![para(vec![
            Node::Emphasis { text: "em".to_string() },
            Node::ExternalLink { title: None, url: "http://u".to_string() },
            Node::InternalLink { title: "page".to_string() },
            Node::HashTag { value: "tag".to_string() },
            Node::BlockQuote { value: "quote".to_string() },
            Node::Math { value: "x^2".to_string() },
            Node::Table { name: "t".to_string(), cells: vec![vec!["c".to_string()]] },
            image("i.png"),
        ])],
    };
    assert_eq!(
        describe(&page),
        vec![vec![
            (Kind::Emphasis, "em".to_string()),
            (Kind::Link, "http://u".to_string()),
            (Kind::Link, "page".to_string()),
            (Kind::Link, "#tag".to_string()),
            (Kind::Code, "quote".to_string()),
            (Kind::Normal, "x^2".to_string()),
            (Kind::Image, "i.png".to_string()),
        ]]
    );
}

#[test]
fn table_alone_gives_an_empty_line() {
    let page = Page { nodes: vec![Node::Table { name: "t".to_string(), cells: vec![] }] };
    assert_eq!(describe(&page), vec![Vec::<(Kind, String)>::new()]);
}

#[test]
fn list_items_open_lines_until_stopped() {
    let items: Vec<ListItem> = (0..10).map(|i| ListItem { children: vec![text(&format!("i{}", i))] }).collect();
    let page = Page { nodes: vec![Node::List { items }] };
    let d = describe(&page);
    assert_eq!(d.len(), 6);
    assert_eq!(d[0], vec![(Kind::Normal, "i0".to_string())]);
    assert_eq!(d[4], vec![(Kind::Normal, "i4".to_string())]);
    assert!(d[5].is_empty());
}

#[test]
fn nothing_is_written_once_finished() {
    let mut w = DescriptionWriter::new();
    assert!(!w.is_finish());
    let page = Page { nodes: (0..8).map(|i| para(vec![text(&format!("{}", i))])).collect() };
    w.visit(&page);
    assert!(w.is_finish());
    let n = w.lines.len();
    w.visit(&Page { nodes: vec![text("more")] });
    assert_eq!(w.lines.len(), n);
    assert_eq!(frags(&w.lines)[n - 2], vec![(Kind::Normal, "4".to_string())]);
    assert!(w.lines[n - 1].is_empty());
}

#[test]
fn replace_command_takes_the_place() {
    let n = apply_command(image("a"), Some(TransformCommand::Replace(image("b"))));
    assert!(matches!(n, Node::Image { uri } if uri == "b"));
    let n = apply_command(image("a"), None);
    assert!(matches!(n, Node::Image { uri } if uri == "a"));
}

#[test]
fn line_new_keeps_its_fields() {
    let l = Line::new(Kind::Link, "v".to_string());
    assert_eq!(l.kind, Kind::Link);
    assert_eq!(l.value, "v");
}

#[test]
fn converters_run_the_passes() {
    let mut m = MarkdownConverter { page: image_page() };
    assert_eq!(m.get_image_urls(), vec!["a.png".to_string(), "b.png".to_string()]);
    m.replace_image_urls(pairs(&[("b.png", "B")]));
    assert_eq!(m.get_image_urls(), vec!["a.png".to_string(), "B".to_string()]);
    let d = m.description(5);
    assert_eq!(frags(&d)[0], vec![(Kind::Image, "a.png".to_string()), (Kind::Normal, "x".to_string())]);
    let mut s = ScrapboxConverter { page: image_page() };
    s.replace_image_urls(pairs(&[("a.png", "A")]));
    assert_eq!(s.get_image_urls(), vec!["A".to_string(), "b.png".to_string()]);
}

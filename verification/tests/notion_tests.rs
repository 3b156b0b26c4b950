//! Walking imported page trees: counts, lookup and link resolution.

use collab_persist::notion::{ExternalLink, ExternalLinkType, NotionFile, NotionPage};

fn leaf(id: &str, file: NotionFile) -> NotionPage {
    NotionPage {
        notion_name: format!("page {}", id),
        notion_id: id.to_string(),
        notion_file: file,
        view_id: format!("view-{}", id),
        workspace_id: "ws".to_string(),
        children: Vec::new(),
        external_links: Vec::new(),
        host: "https://example.test".to_string(),
    }
}

fn link(id: &str, ty: ExternalLinkType) -> ExternalLink {
    ExternalLink { id: id.to_string(), name: format!("link {}", id), link_type: ty }
}

/// root(markdown) -> [a(csv) -> [b(markdown), c(csv)], d(unknown)]
fn sample_tree() -> NotionPage {
    let mut a = leaf("a", NotionFile::CSV);
    a.children = vec![leaf("b", NotionFile::Markdown), leaf("c", NotionFile::CSV)];
    let d = leaf("d", NotionFile::Unknown);
    let mut root = leaf("root", NotionFile::Markdown);
    root.children = vec![a, d];
    root
}

#[test]
fn counts_by_file_kind() {
    let root = sample_tree();
    assert_eq!(root.num_of_csv(), 2);
    assert_eq!(root.num_of_markdown(), 2);
    let empty = leaf("solo", NotionFile::Unknown);
    assert_eq!(empty.num_of_csv(), 0);
    assert_eq!(empty.num_of_markdown(), 0);
}

#[test]
fn get_view_searches_recursively() {
    let root = sample_tree();
    let found = root.get_view("c").expect("c is a grandchild");
    assert_eq!(found.notion_id, "c");
    assert_eq!(found.view_id, "view-c");
    assert!(root.get_view("root").is_none(), "the root itself is not searched");
    assert!(root.get_view("zzz").is_none());
}

#[test]
fn linked_views_resolve_in_link_order() {
    let mut root = sample_tree();
    root.external_links = vec![
        vec![link("b", ExternalLinkType::Markdown), link("c", ExternalLinkType::CSV)],
        vec![link("missing", ExternalLinkType::Unknown)],
        vec![link("d", ExternalLinkType::Unknown)],
    ];
    let views = root.get_linked_views();
    let ids: Vec<String> = views.into_iter().map(|v| v.notion_id).collect();
    assert_eq!(ids, vec!["b".to_string(), "c".to_string(), "d".to_string()]);
}

#[test]
fn external_link_views_keyed_by_last_link() {
    let mut root = sample_tree();
    root.external_links = vec![
        // only the last link of a group names the view
        vec![link("d", ExternalLinkType::Unknown), link("b", ExternalLinkType::Markdown)],
        vec![link("missing", ExternalLinkType::Unknown)],
        vec![link("b", ExternalLinkType::Markdown)],
        vec![link("c", ExternalLinkType::CSV)],
        vec![],
    ];
    let mut keyed = root.get_external_link_notion_view();
    keyed.sort_by(|x, y| x.0.cmp(&y.0));
    assert_eq!(keyed.len(), 2);
    assert_eq!(keyed[0].0, "b");
    assert_eq!(keyed[0].1.notion_id, "b");
    assert_eq!(keyed[1].0, "c");
    assert_eq!(keyed[1].1.notion_id, "c");
}

#[test]
fn clone_page_copies_the_whole_tree() {
    let mut root = sample_tree();
    root.external_links = vec![vec![link("b", ExternalLinkType::Markdown)]];
    let copy = root.clone_page();
    assert_eq!(copy.notion_name, root.notion_name);
    assert_eq!(copy.children.len(), 2);
    assert_eq!(copy.children[0].children[1].notion_id, "c");
    assert_eq!(copy.external_links[0][0].id, "b");
}

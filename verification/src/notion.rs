//! Imported page trees.
//!
//! A [`NotionPage`] is one node of an imported workspace: a file of a known
//! kind, a tree of child pages, and the external links its content carries.
//! These helpers only walk the tree — counting files of a kind, finding a
//! page by id, and resolving links to pages — and never touch the files
//! themselves.

use vstd::prelude::*;

verus! {

/// The kind of file a page was imported from.
#[derive(Clone, Copy, Debug, PartialEq, Eq, Structural)]
pub enum NotionFile {
    Unknown,
    CSV,
    Markdown,
}

/// The kind of target an external link points at.
#[derive(Clone, Copy, Debug, PartialEq, Eq, Structural)]
pub enum ExternalLinkType {
    Unknown,
    CSV,
    Markdown,
}

/// One external link found in a page's content.
pub struct ExternalLink {
    pub id: String,
    pub name: String,
    pub link_type: ExternalLinkType,
}

impl Clone for ExternalLink {
    fn clone(&self) -> (r: Self)
        ensures
            r == *self,
    {
        ExternalLink { id: self.id.clone(), name: self.name.clone(), link_type: self.link_type }
    }
}

/// One page of an imported workspace.
pub struct NotionPage {
    pub notion_name: String,
    pub notion_id: String,
    pub notion_file: NotionFile,
    /// For a database page this is the inline view id of the database; for a
    /// document page it is the document id.
    pub view_id: String,
    pub workspace_id: String,
    pub children: Vec<NotionPage>,
    pub external_links: Vec<Vec<ExternalLink>>,
    pub host: String,
}

/// Two pages carry the same data: equal scalar fields, pointwise equal
/// links, and alike children.  This is what cloning preserves.
pub open spec fn page_like(a: NotionPage, b: NotionPage) -> bool
    decreases a,
{
    &&& a.notion_name == b.notion_name
    &&& a.notion_id == b.notion_id
    &&& a.notion_file == b.notion_file
    &&& a.view_id == b.view_id
    &&& a.workspace_id == b.workspace_id
    &&& a.host == b.host
    &&& a.external_links@.len() == b.external_links@.len()
    &&& forall|i: int|
        0 <= i < a.external_links@.len() ==> (#[trigger] a.external_links@[i])@
            == b.external_links@[i]@
    &&& a.children@.len() == b.children@.len()
    &&& forall|i: int|
        0 <= i < a.children@.len() ==> page_like(#[trigger] a.children@[i], b.children@[i])
}

/// How many files of `kind` the page and its descendants hold.
pub open spec fn file_count(p: NotionPage, kind: NotionFile) -> nat
    decreases p,
{
    (if p.notion_file == kind {
        1nat
    } else {
        0nat
    }) + file_count_seq(p.children@, kind)
}

/// How many files of `kind` a forest of pages holds.
pub open spec fn file_count_seq(s: Seq<NotionPage>, kind: NotionFile) -> nat
    decreases s,
{
    if s.len() == 0 {
        0
    } else {
        file_count_seq(s.drop_last(), kind) + file_count(s.last(), kind)
    }
}

/// Dropping pages from the end never increases the count.
proof fn lemma_file_count_take(s: Seq<NotionPage>, kind: NotionFile, j: int)
    requires
        0 <= j <= s.len(),
    ensures
        file_count_seq(s.take(j), kind) <= file_count_seq(s, kind),
    decreases s.len(),
{
    if j == s.len() {
        assert(s.take(j) =~= s);
    } else if s.len() > 0 {
        assert(s.drop_last().take(j) =~= s.take(j));
        lemma_file_count_take(s.drop_last(), kind, j);
    }
}

/// The first page matching `id` in a preorder walk of the forest: a page is
/// found before its own subtree, and a subtree before later siblings.
pub open spec fn find_page(s: Seq<NotionPage>, id: Seq<char>) -> Option<NotionPage>
    decreases s,
{
    if s.len() == 0 {
        None
    } else if s[0].notion_id@ == id {
        Some(s[0])
    } else {
        match find_page(s[0].children@, id) {
            Some(v) => Some(v),
            None => find_page(s.drop_first(), id),
        }
    }
}

/// The views found for every link of every group, in order.
pub open spec fn gathered_views(children: Seq<NotionPage>, links: Seq<Seq<ExternalLink>>) -> Seq<
    NotionPage,
>
    decreases links.len(),
{
    if links.len() == 0 {
        Seq::empty()
    } else {
        gathered_views(children, links.drop_last()) + gathered_group(children, links.last())
    }
}

/// The views found for each link of one group, in order.
pub open spec fn gathered_group(children: Seq<NotionPage>, group: Seq<ExternalLink>) -> Seq<
    NotionPage,
>
    decreases group.len(),
{
    if group.len() == 0 {
        Seq::empty()
    } else {
        gathered_group(children, group.drop_last()) + (match find_page(
            children,
            group.last().id@,
        ) {
            Some(v) => seq![v],
            None => Seq::empty(),
        })
    }
}

/// Whether some link group's last link carries `id` and a page with that id
/// exists in the forest.
pub open spec fn linked_view_id(p: NotionPage, id: Seq<char>) -> bool {
    exists|i: int|
        0 <= i < p.external_links@.len() && (#[trigger] p.external_links@[i])@.len() > 0
            && p.external_links@[i]@.last().id@ == id && find_page(p.children@, id) is Some
}

/// Search a forest of pages for the page with the given id.
fn search_pages(views: &Vec<NotionPage>, id: &str) -> (r: Option<NotionPage>)
    ensures
        match r {
            Some(v) => find_page(views@, id@) is Some && page_like(
                v,
                find_page(views@, id@)->Some_0,
            ),
            None => find_page(views@, id@) is None,
        },
    decreases views@,
{
    let mut i: usize = 0;
    assert(views@.skip(0) =~= views@);
    while i < views.len()
        invariant
            0 <= i <= views@.len(),
            find_page(views@, id@) == find_page(views@.skip(i as int), id@),
        decreases views@.len() - i,
    {
        let ghost tail = views@.skip(i as int);
        assert(tail[0] == views@[i as int]);
        assert(tail.drop_first() =~= views@.skip(i + 1));
        let owned_id = id.to_owned();
        if views[i].notion_id == owned_id {
            assert(views@[i as int].notion_id@ == id@);
            assert(find_page(views@, id@) == Some(views@[i as int]));
            let c = views[i].clone_page();
            return Some(c);
        }
        assert(views@[i as int].notion_id@ != id@);
        match search_pages(&views[i].children, id) {
            Some(v) => {
                assert(find_page(views@[i as int].children@, id@) is Some);
                return Some(v);
            },
            None => {
                assert(find_page(views@[i as int].children@, id@) is None);
            },
        }
        i += 1;
    }
    assert(views@.skip(views@.len() as int) =~= Seq::<NotionPage>::empty());
    None
}

impl NotionPage {
    /// A deep copy carrying the same data.
    pub fn clone_page(&self) -> (r: Self)
        ensures
            page_like(r, *self),
        decreases *self,
    {
        let mut children: Vec<NotionPage> = Vec::new();
        let mut i: usize = 0;
        while i < self.children.len()
            invariant
                0 <= i <= self.children@.len(),
                children@.len() == i,
                forall|j: int|
                    0 <= j < i ==> page_like(#[trigger] children@[j], self.children@[j]),
            decreases self.children@.len() - i,
        {
            let c = self.children[i].clone_page();
            children.push(c);
            i += 1;
        }
        let mut links: Vec<Vec<ExternalLink>> = Vec::new();
        let mut t: usize = 0;
        while t < self.external_links.len()
            invariant
                0 <= t <= self.external_links@.len(),
                links@.len() == t,
                forall|j: int| 0 <= j < t ==> (#[trigger] links@[j])@ == self.external_links@[j]@,
            decreases self.external_links@.len() - t,
        {
            let group = &self.external_links[t];
            let mut copy: Vec<ExternalLink> = Vec::new();
            let mut u: usize = 0;
            while u < group.len()
                invariant
                    0 <= u <= group@.len(),
                    copy@.len() == u,
                    forall|j: int| 0 <= j < u ==> #[trigger] copy@[j] == group@[j],
                decreases group@.len() - u,
            {
                copy.push(group[u].clone());
                u += 1;
            }
            assert(copy@ =~= group@);
            links.push(copy);
            t += 1;
        }
        NotionPage {
            notion_name: self.notion_name.clone(),
            notion_id: self.notion_id.clone(),
            notion_file: self.notion_file,
            view_id: self.view_id.clone(),
            workspace_id: self.workspace_id.clone(),
            children,
            external_links: links,
            host: self.host.clone(),
        }
    }

    /// The number of CSV files in the view and its children.
    pub fn num_of_csv(&self) -> (n: usize)
        requires
            file_count(*self, NotionFile::CSV) <= usize::MAX,
        ensures
            n == file_count(*self, NotionFile::CSV),
        decreases *self,
    {
        self.count_files(NotionFile::CSV)
    }

    /// The number of markdown files in the view and its children.
    pub fn num_of_markdown(&self) -> (n: usize)
        requires
            file_count(*self, NotionFile::Markdown) <= usize::MAX,
        ensures
            n == file_count(*self, NotionFile::Markdown),
        decreases *self,
    {
        self.count_files(NotionFile::Markdown)
    }

    /// Count the files of one kind in the view and its children.
    fn count_files(&self, kind: NotionFile) -> (n: usize)
        requires
            file_count(*self, kind) <= usize::MAX,
        ensures
            n == file_count(*self, kind),
        decreases *self,
    {
        let own: usize = if self.notion_file == kind {
            1
        } else {
            0
        };
        let mut acc: usize = 0;
        let mut i: usize = 0;
        assert(self.children@.take(0) =~= Seq::<NotionPage>::empty());
        while i < self.children.len()
            invariant
                0 <= i <= self.children@.len(),
                acc == file_count_seq(self.children@.take(i as int), kind),
                file_count(*self, kind) <= usize::MAX,
                own == if self.notion_file == kind { 1int } else { 0int },
            decreases self.children@.len() - i,
        {
            proof {
                let t = self.children@.take(i + 1);
                assert(t.drop_last() =~= self.children@.take(i as int));
                assert(t.last() == self.children@[i as int]);
                lemma_file_count_take(self.children@, kind, i + 1);
                assert(file_count_seq(self.children@, kind) <= file_count(*self, kind));
            }
            let c = self.children[i].count_files(kind);
            acc = acc + c;
            i += 1;
        }
        assert(self.children@.take(self.children@.len() as int) =~= self.children@);
        own + acc
    }

    /// The page with the given id, searched recursively through the
    /// children in preorder.
    pub fn get_view(&self, id: &str) -> (r: Option<NotionPage>)
        ensures
            match r {
                Some(v) => find_page(self.children@, id@) is Some && page_like(
                    v,
                    find_page(self.children@, id@)->Some_0,
                ),
                None => find_page(self.children@, id@) is None,
            },
    {
        search_pages(&self.children, id)
    }

    /// The pages that the last link of each link group points at, keyed by
    /// that link's id: every resolvable last-link id appears exactly once.
    pub fn get_external_link_notion_view(&self) -> (out: Vec<(String, NotionPage)>)
        ensures
            forall|j: int|
                0 <= j < out@.len() ==> linked_view_id(*self, (#[trigger] out@[j]).0@)
                    && find_page(self.children@, out@[j].0@) is Some && page_like(
                    out@[j].1,
                    find_page(self.children@, out@[j].0@)->Some_0,
                ),
            forall|id: Seq<char>| linked_view_id(*self, id) ==> exists|j: int|
                0 <= j < out@.len() && (#[trigger] out@[j]).0@ == id,
            forall|i: int, j: int| 0 <= i < j < out@.len() ==> out@[i].0@ != out@[j].0@,
    {
        let mut out: Vec<(String, NotionPage)> = Vec::new();
        let mut i: usize = 0;
        while i < self.external_links.len()
            invariant
                0 <= i <= self.external_links@.len(),
                forall|j: int|
                    0 <= j < out@.len() ==> linked_view_id(*self, (#[trigger] out@[j]).0@)
                        && find_page(self.children@, out@[j].0@) is Some && page_like(
                        out@[j].1,
                        find_page(self.children@, out@[j].0@)->Some_0,
                    ),
                forall|t: int|
                    0 <= t < i && (#[trigger] self.external_links@[t])@.len() > 0 && find_page(
                        self.children@,
                        self.external_links@[t]@.last().id@,
                    ) is Some ==> exists|j: int|
                        0 <= j < out@.len() && (#[trigger] out@[j]).0@
                            == self.external_links@[t]@.last().id@,
                forall|i2: int, j2: int| 0 <= i2 < j2 < out@.len() ==> out@[i2].0@ != out@[j2].0@,
            decreases self.external_links@.len() - i,
        {
            let ghost out0 = out@;
            let group = &self.external_links[i];
            if group.len() > 0 {
                let link = &group[group.len() - 1];
                assert(*link == self.external_links@[i as int]@.last());
                match self.get_view(link.id.as_str()) {
                    Some(view) => {
                        let mut found = false;
                        let mut j: usize = 0;
                        let outlen = out.len();
                        while j < outlen
                            invariant
                                0 <= j <= out@.len(),
                                outlen == out@.len(),
                                found <==> exists|t: int|
                                    0 <= t < j && (#[trigger] out@[t]).0@ == link.id@,
                            decreases out@.len() - j,
                        {
                            if out[j].0 == link.id {
                                found = true;
                                assert(out@[j as int].0@ == link.id@);
                            }
                            j += 1;
                        }
                        if !found {
                            let id_copy = link.id.clone();
                            out.push((id_copy, view));
                            assert(linked_view_id(*self, link.id@)) by {
                                assert((self.external_links@[i as int])@.len() > 0
                                    && self.external_links@[i as int]@.last().id@ == link.id@
                                    && find_page(self.children@, link.id@) is Some);
                            }
                        }
                        assert(exists|j2: int|
                            0 <= j2 < out@.len() && (#[trigger] out@[j2]).0@ == link.id@) by {
                            if found {
                            } else {
                                assert(out@[out@.len() - 1].0@ == link.id@);
                            }
                        }
                    },
                    None => {},
                }
            }
            proof {
                assert forall|t: int|
                    0 <= t < i + 1 && (#[trigger] self.external_links@[t])@.len() > 0
                        && find_page(
                        self.children@,
                        self.external_links@[t]@.last().id@,
                    ) is Some implies exists|j: int|
                    0 <= j < out@.len() && (#[trigger] out@[j]).0@
                        == self.external_links@[t]@.last().id@ by {
                    if t < i {
                        let j = choose|j: int|
                            0 <= j < out0.len() && (#[trigger] out0[j]).0@
                                == self.external_links@[t]@.last().id@;
                        assert(out@[j] == out0[j]);
                    }
                }
            }
            i += 1;
        }
        out
    }

    /// Every page that any external link of this page resolves to, in link
    /// order; a link whose id matches no page contributes nothing.
    pub fn get_linked_views(&self) -> (out: Vec<NotionPage>)
        ensures
            out@.len() == gathered_views(self.children@, self.external_links@.map_values(
                |g: Vec<ExternalLink>| g@,
            )).len(),
            forall|j: int|
                0 <= j < out@.len() ==> page_like(
                    #[trigger] out@[j],
                    gathered_views(self.children@, self.external_links@.map_values(
                        |g: Vec<ExternalLink>| g@,
                    ))[j],
                ),
    {
        let ghost allg = self.external_links@.map_values(|g: Vec<ExternalLink>| g@);
        let mut out: Vec<NotionPage> = Vec::new();
        let mut i: usize = 0;
        assert(allg.take(0) =~= Seq::<Seq<ExternalLink>>::empty());
        while i < self.external_links.len()
            invariant
                0 <= i <= self.external_links@.len(),
                allg == self.external_links@.map_values(|g: Vec<ExternalLink>| g@),
                out@.len() == gathered_views(self.children@, allg.take(i as int)).len(),
                forall|j: int|
                    0 <= j < out@.len() ==> page_like(
                        #[trigger] out@[j],
                        gathered_views(self.children@, allg.take(i as int))[j],
                    ),
            decreases self.external_links@.len() - i,
        {
            let group = &self.external_links[i];
            assert(allg[i as int] == group@);
            let ghost sofar = gathered_views(self.children@, allg.take(i as int));
            let mut u: usize = 0;
            assert(group@.take(0) =~= Seq::<ExternalLink>::empty());
            assert(gathered_group(self.children@, group@.take(0)) =~= Seq::<NotionPage>::empty());
            while u < group.len()
                invariant
                    0 <= u <= group@.len(),
                    sofar == gathered_views(self.children@, allg.take(i as int)),
                    out@.len() == sofar.len() + gathered_group(
                        self.children@,
                        group@.take(u as int),
                    ).len(),
                    forall|j: int|
                        0 <= j < out@.len() ==> page_like(
                            #[trigger] out@[j],
                            (sofar + gathered_group(self.children@, group@.take(u as int)))[j],
                        ),
                decreases group@.len() - u,
            {
                proof {
                    let t = group@.take(u + 1);
                    assert(t.drop_last() =~= group@.take(u as int));
                    assert(t.last() == group@[u as int]);
                }
                match self.get_view(group[u].id.as_str()) {
                    Some(view) => {
                        assert(find_page(self.children@, group@[u as int].id@) is Some);
                        out.push(view);
                    },
                    None => {
                        assert(find_page(self.children@, group@[u as int].id@) is None);
                    },
                }
                u += 1;
            }
            assert(group@.take(group@.len() as int) =~= group@);
            proof {
                let t = allg.take(i + 1);
                assert(t.drop_last() =~= allg.take(i as int));
                assert(t.last() == allg[i as int]);
            }
            i += 1;
        }
        assert(allg.take(allg.len() as int) =~= allg);
        out
    }
}

} // verus!

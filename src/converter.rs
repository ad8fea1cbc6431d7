use vstd::prelude::*;
use crate::ast::Page;
use crate::description_writer::{describe, bounded, lemma_describe_bounded, DescriptionWriter, Fragment, Line};
use crate::image_url_collector::{collect_into, image_set, images_of_nodes, lemma_collect_into_set, rewritten_nodes, ImageUrlCollector, ImageUrlRewriter};

verus! {

/// The views of a writer's lines.
pub open spec fn lines_of(lines: Seq<Vec<Line>>) -> Seq<Seq<Fragment>> {
    lines.map_values(|l: Vec<Line>| l@.map_values(|f: Line| f.view()))
}

/// A parsed Markdown document and the passes run on it.
pub struct MarkdownConverter {
    pub page: Page,
}

/// A parsed Scrapbox document and the passes run on it.
pub struct ScrapboxConverter {
    pub page: Page,
}

/// The distinct image references of a page, in order of first occurrence.
fn page_image_urls(page: &Page) -> (r: Vec<String>)
    ensures
        r@.map_values(|s: String| s@) == collect_into(seq![], images_of_nodes(page.nodes@)),
        r@.map_values(|s: String| s@).to_set() == image_set(*page),
        r@.map_values(|s: String| s@).no_duplicates(),
{
    let mut collector = ImageUrlCollector::new();
    collector.visit(page);
    proof {
        lemma_collect_into_set(seq![], images_of_nodes(page.nodes@));
        assert(Seq::<Seq<char>>::empty().to_set() + image_set(*page) =~= image_set(*page));
    }
    collector.urls
}

fn page_replace_image_urls(page: &mut Page, map: Vec<(String, String)>)
    ensures
        rewritten_nodes(old(page).nodes@, final(page).nodes@, map@),
{
    let rewriter = ImageUrlRewriter::new(map);
    rewriter.visit(page);
}

impl MarkdownConverter {
    pub fn get_image_urls(&mut self) -> (r: Vec<String>)
        ensures
            final(self).page == old(self).page,
            r@.map_values(|s: String| s@) == collect_into(seq![], images_of_nodes(old(self).page.nodes@)),
            r@.map_values(|s: String| s@).to_set() == image_set(old(self).page),
            r@.map_values(|s: String| s@).no_duplicates(),
    {
        page_image_urls(&self.page)
    }

    pub fn replace_image_urls(&mut self, map: Vec<(String, String)>)
        ensures
            rewritten_nodes(old(self).page.nodes@, final(self).page.nodes@, map@),
    {
        page_replace_image_urls(&mut self.page, map);
    }

    /// The preview lines of the document.
    pub fn description(&mut self, _lines: usize) -> (r: Vec<Vec<Line>>)
        ensures
            final(self).page == old(self).page,
            lines_of(r@) == describe(old(self).page),
            bounded(lines_of(r@)),
    {
        let mut writer = DescriptionWriter::new();
        writer.visit(&self.page);
        proof { lemma_describe_bounded(self.page); }
        writer.lines
    }
}

impl ScrapboxConverter {
    pub fn get_image_urls(&mut self) -> (r: Vec<String>)
        ensures
            final(self).page == old(self).page,
            r@.map_values(|s: String| s@) == collect_into(seq![], images_of_nodes(old(self).page.nodes@)),
            r@.map_values(|s: String| s@).to_set() == image_set(old(self).page),
            r@.map_values(|s: String| s@).no_duplicates(),
    {
        page_image_urls(&self.page)
    }

    pub fn replace_image_urls(&mut self, map: Vec<(String, String)>)
        ensures
            rewritten_nodes(old(self).page.nodes@, final(self).page.nodes@, map@),
    {
        page_replace_image_urls(&mut self.page, map);
    }
}

} // verus!

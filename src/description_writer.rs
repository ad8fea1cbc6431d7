use vstd::prelude::*;
use vstd::string::StringExecFns;
use crate::ast::{ListItem, Node, Page};

verus! {

broadcast use {vstd::seq::group_seq_axioms, vstd::std_specs::vec::group_vec_axioms};

/// How a fragment of a display line is to be shown.
#[derive(Clone, Copy, Debug, PartialEq, Eq, Structural)]
pub enum Kind {
    Normal,
    Code,
    Link,
    Emphasis,
    Image,
}

/// One kind-tagged fragment of a display line.
pub struct Line {
    pub kind: Kind,
    pub value: String,
}

/// A fragment as a kind and the characters of its value.
pub type Fragment = (Kind, Seq<char>);

impl Line {
    pub open spec fn view(&self) -> Fragment {
        (self.kind, self.value@)
    }

    pub fn new(kind: Kind, value: String) -> (r: Self)
        ensures
            r.kind == kind,
            r.value == value,
    {
        Line { kind, value }
    }
}

/// The number of display lines past which the writer stops.
pub const MAX_LINES: usize = 5;

/// The lines with a fresh empty line at the end, unless the last one is
/// already empty: two empty lines never follow each other.
pub open spec fn start_line(ls: Seq<Seq<Fragment>>) -> Seq<Seq<Fragment>> {
    if ls.len() == 0 || ls.last().len() > 0 {
        ls.push(seq![])
    } else {
        ls
    }
}

/// The lines with `f` added at the end of the last one.
pub open spec fn append_fragment(ls: Seq<Seq<Fragment>>, f: Fragment) -> Seq<Seq<Fragment>> {
    if ls.len() == 0 {
        seq![seq![f]]
    } else {
        ls.update(ls.len() - 1, ls.last().push(f))
    }
}

/// The fragment that a node without children contributes, if any.
pub open spec fn leaf_fragment(n: Node) -> Option<Fragment> {
    match n {
        Node::Text { value } => Some((Kind::Normal, value@)),
        Node::Emphasis { text } => Some((Kind::Emphasis, text@)),
        Node::ExternalLink { title, url } => match title {
            Some(t) => Some((Kind::Link, t@)),
            None => Some((Kind::Link, url@)),
        },
        Node::InternalLink { title } => Some((Kind::Link, title@)),
        Node::HashTag { value } => Some((Kind::Link, seq!['#'] + value@)),
        Node::Heading { text, .. } => Some((Kind::Emphasis, text@)),
        Node::BlockQuote { value } => Some((Kind::Code, value@)),
        Node::Math { value } => Some((Kind::Normal, value@)),
        Node::Image { uri } => Some((Kind::Image, uri@)),
        _ => None,
    }
}

/// Whether the writer has stopped: more than five lines exist.
pub open spec fn finished(ls: Seq<Seq<Fragment>>) -> bool {
    ls.len() > MAX_LINES
}

/// The lines after visiting node `n`.
pub open spec fn describe_node(ls: Seq<Seq<Fragment>>, n: Node) -> Seq<Seq<Fragment>>
    decreases n,
{
    if finished(ls) {
        ls
    } else {
        let ls1 = if ls.len() == 0 {
            seq![seq![]]
        } else {
            ls
        };
        match n {
            Node::Paragraph { children } => describe_nodes(start_line(ls1), children@),
            Node::List { items } => describe_items(ls1, items@),
            Node::CodeBlock { lines, .. } => describe_code(ls1, lines@),
            _ => match leaf_fragment(n) {
                Some(f) => append_fragment(ls1, f),
                None => ls1,
            },
        }
    }
}

/// The lines after visiting sibling nodes `s` in order.
pub open spec fn describe_nodes(ls: Seq<Seq<Fragment>>, s: Seq<Node>) -> Seq<Seq<Fragment>>
    decreases s,
{
    if s.len() == 0 {
        ls
    } else {
        describe_node(describe_nodes(ls, s.drop_last()), s.last())
    }
}

/// The lines after visiting the items of a list: each item opens a line,
/// and items after the writer has stopped are skipped.
pub open spec fn describe_items(ls: Seq<Seq<Fragment>>, s: Seq<ListItem>) -> Seq<Seq<Fragment>>
    decreases s,
{
    if s.len() == 0 {
        ls
    } else {
        let p = describe_items(ls, s.drop_last());
        if finished(p) {
            p
        } else {
            describe_nodes(start_line(p), s.last().children@)
        }
    }
}

/// The lines after a code block: each of its lines is a display line of its
/// own, until the writer stops.
pub open spec fn describe_code(ls: Seq<Seq<Fragment>>, c: Seq<String>) -> Seq<Seq<Fragment>>
    decreases c.len(),
{
    if c.len() == 0 {
        ls
    } else {
        let p = describe_code(ls, c.drop_last());
        if finished(p) {
            p
        } else {
            p.push(seq![(Kind::Code, c.last()@)])
        }
    }
}

/// The description of a whole page.
pub open spec fn describe(page: Page) -> Seq<Seq<Fragment>> {
    describe_nodes(seq![], page.nodes@)
}

/// At most six lines, and no two empty lines next to each other.
pub open spec fn bounded(ls: Seq<Seq<Fragment>>) -> bool {
    &&& ls.len() <= MAX_LINES + 1
    &&& forall|i: int| 0 <= i < ls.len() - 1 ==> !(#[trigger] ls[i].len() == 0 && ls[i + 1].len() == 0)
}

proof fn lemma_start_line_bounded(ls: Seq<Seq<Fragment>>)
    requires
        bounded(ls),
        !finished(ls),
    ensures
        bounded(start_line(ls)),
        start_line(ls).len() > 0,
{
    let r = start_line(ls);
    assert forall|i: int| 0 <= i < r.len() - 1 implies !(#[trigger] r[i].len() == 0 && r[i + 1].len() == 0) by {
        if i < ls.len() - 1 {
            assert(r[i] == ls[i] && r[i + 1] == ls[i + 1]);
        }
    }
}

proof fn lemma_append_bounded(ls: Seq<Seq<Fragment>>, f: Fragment)
    requires
        bounded(ls),
        ls.len() > 0,
    ensures
        bounded(append_fragment(ls, f)),
        append_fragment(ls, f).len() == ls.len(),
{
    let r = append_fragment(ls, f);
    assert forall|i: int| 0 <= i < r.len() - 1 implies !(#[trigger] r[i].len() == 0 && r[i + 1].len() == 0) by {
        assert(ls[i].len() == 0 && ls[i + 1].len() == 0 ==> false);
        if i + 1 == r.len() - 1 {
            assert(r[i + 1].len() > 0);
        }
    }
}

proof fn lemma_code_bounded(ls: Seq<Seq<Fragment>>, c: Seq<String>)
    requires
        bounded(ls),
        ls.len() > 0,
    ensures
        bounded(describe_code(ls, c)),
        describe_code(ls, c).len() > 0,
    decreases c.len(),
{
    if c.len() > 0 {
        lemma_code_bounded(ls, c.drop_last());
        let p = describe_code(ls, c.drop_last());
        if !finished(p) {
            let r = p.push(seq![(Kind::Code, c.last()@)]);
            assert forall|i: int| 0 <= i < r.len() - 1 implies !(#[trigger] r[i].len() == 0 && r[i + 1].len() == 0) by {
                if i + 1 == r.len() - 1 {
                    assert(r[i + 1].len() == 1);
                } else {
                    assert(r[i] == p[i] && r[i + 1] == p[i + 1]);
                }
            }
        }
    }
}

proof fn lemma_node_bounded(ls: Seq<Seq<Fragment>>, n: Node)
    requires
        bounded(ls),
    ensures
        bounded(describe_node(ls, n)),
        ls.len() <= describe_node(ls, n).len(),
    decreases n,
{
    if !finished(ls) {
        let ls1 = if ls.len() == 0 {
            seq![seq![]]
        } else {
            ls
        };
        assert(bounded(ls1));
        match n {
            Node::Paragraph { children } => {
                lemma_start_line_bounded(ls1);
                lemma_nodes_bounded(start_line(ls1), children@);
            },
            Node::List { items } => {
                lemma_items_bounded(ls1, items@);
            },
            Node::CodeBlock { lines, .. } => {
                lemma_code_bounded(ls1, lines@);
                lemma_code_grows(ls1, lines@);
            },
            _ => {
                match leaf_fragment(n) {
                    Some(f) => lemma_append_bounded(ls1, f),
                    None => {},
                }
            },
        }
    }
}

proof fn lemma_code_grows(ls: Seq<Seq<Fragment>>, c: Seq<String>)
    ensures
        ls.len() <= describe_code(ls, c).len(),
    decreases c.len(),
{
    if c.len() > 0 {
        lemma_code_grows(ls, c.drop_last());
    }
}

proof fn lemma_nodes_bounded(ls: Seq<Seq<Fragment>>, s: Seq<Node>)
    requires
        bounded(ls),
    ensures
        bounded(describe_nodes(ls, s)),
        ls.len() <= describe_nodes(ls, s).len(),
    decreases s,
{
    if s.len() > 0 {
        lemma_nodes_bounded(ls, s.drop_last());
        lemma_node_bounded(describe_nodes(ls, s.drop_last()), s.last());
    }
}

proof fn lemma_items_bounded(ls: Seq<Seq<Fragment>>, s: Seq<ListItem>)
    requires
        bounded(ls),
    ensures
        bounded(describe_items(ls, s)),
        ls.len() <= describe_items(ls, s).len(),
    decreases s,
{
    if s.len() > 0 {
        lemma_items_bounded(ls, s.drop_last());
        let p = describe_items(ls, s.drop_last());
        if !finished(p) {
            lemma_start_line_bounded(p);
            lemma_nodes_bounded(start_line(p), s.last().children@);
        }
    }
}

/// Whatever the page, its description has at most six lines and never two
/// empty lines next to each other.
pub proof fn lemma_describe_bounded(page: Page)
    ensures
        bounded(describe(page)),
{
    assert(bounded(Seq::<Seq<Fragment>>::empty()));
    lemma_nodes_bounded(seq![], page.nodes@);
}

/// Pass that writes a short preview of a document: at most six display
/// lines of kind-tagged fragments.
pub struct DescriptionWriter {
    pub lines: Vec<Vec<Line>>,
}

impl DescriptionWriter {
    /// The lines written so far.
    pub open spec fn lines_view(&self) -> Seq<Seq<Fragment>> {
        self.lines@.map_values(|l: Vec<Line>| l@.map_values(|f: Line| f.view()))
    }

    pub fn new() -> (r: Self)
        ensures
            r.lines_view() == Seq::<Seq<Fragment>>::empty(),
    {
        let r = DescriptionWriter { lines: Vec::new() };
        assert(r.lines_view() =~= Seq::<Seq<Fragment>>::empty());
        r
    }

    /// Whether the writer has stopped taking content.
    pub fn is_finish(&self) -> (r: bool)
        ensures
            r == finished(self.lines_view()),
    {
        self.lines.len() > MAX_LINES
    }

    fn push_line(&mut self)
        ensures
            final(self).lines_view() == old(self).lines_view().push(seq![]),
    {
        self.lines.push(Vec::new());
        assert(self.lines_view() =~~= old(self).lines_view().push(seq![]));
    }

    fn start_line(&mut self)
        ensures
            final(self).lines_view() == start_line(old(self).lines_view()),
    {
        let n = self.lines.len();
        if n == 0 || self.lines[n - 1].len() > 0 {
            self.push_line();
        }
    }

    fn push_fragment(&mut self, kind: Kind, value: String)
        ensures
            final(self).lines_view() == append_fragment(old(self).lines_view(), (kind, value@)),
    {
        let f = Line::new(kind, value);
        match self.lines.pop() {
            Some(mut l) => {
                let ghost l0 = l;
                l.push(f);
                self.lines.push(l);
                assert(l@.map_values(|f: Line| f.view()) =~= l0@.map_values(|f: Line| f.view()).push((kind, value@)));
                assert(self.lines_view() =~= append_fragment(old(self).lines_view(), (kind, value@)));
            },
            None => {
                let mut l: Vec<Line> = Vec::new();
                l.push(f);
                self.lines.push(l);
                assert(self.lines_view() =~~= append_fragment(old(self).lines_view(), (kind, value@)));
            },
        }
    }

    fn visit_external_link(&mut self, title: &Option<String>, url: &String)
        ensures
            final(self).lines_view() == append_fragment(
                old(self).lines_view(),
                match title {
                    Some(t) => (Kind::Link, t@),
                    None => (Kind::Link, url@),
                },
            ),
    {
        match title {
            Some(t) => self.push_fragment(Kind::Link, t.clone()),
            None => self.push_fragment(Kind::Link, url.clone()),
        }
    }

    fn visit_hashtag(&mut self, value: &String)
        ensures
            final(self).lines_view() == append_fragment(old(self).lines_view(), (Kind::Link, seq!['#'] + value@)),
    {
        proof { reveal_strlit("#"); }
        let mut s = String::from_str("#");
        s.append(value.as_str());
        assert(s@ =~= seq!['#'] + value@);
        self.push_fragment(Kind::Link, s);
    }

    fn visit_code_block(&mut self, code: &Vec<String>)
        ensures
            final(self).lines_view() == describe_code(old(self).lines_view(), code@),
    {
        let ghost start = self.lines_view();
        let mut i: usize = 0;
        while i < code.len()
            invariant
                0 <= i <= code.len(),
                self.lines_view() == describe_code(start, code@.take(i as int)),
            decreases code.len() - i,
        {
            assert(code@.take(i + 1).drop_last() =~= code@.take(i as int));
            if self.lines.len() <= MAX_LINES {
                let mut l: Vec<Line> = Vec::new();
                l.push(Line::new(Kind::Code, code[i].clone()));
                let ghost before = self.lines_view();
                self.lines.push(l);
                assert(self.lines_view() =~~= before.push(seq![(Kind::Code, code[i as int]@)]));
            }
            i = i + 1;
        }
        assert(code@.take(code.len() as int) =~= code@);
    }

    fn visit_paragraph(&mut self, children: &Vec<Node>)
        ensures
            final(self).lines_view() == describe_nodes(start_line(old(self).lines_view()), children@),
        decreases children, 1nat,
    {
        self.start_line();
        self.visit_nodes(children);
    }

    fn visit_list(&mut self, items: &Vec<ListItem>)
        ensures
            final(self).lines_view() == describe_items(old(self).lines_view(), items@),
        decreases items,
    {
        let ghost start = self.lines_view();
        let mut i: usize = 0;
        while i < items.len()
            invariant
                0 <= i <= items.len(),
                self.lines_view() == describe_items(start, items@.take(i as int)),
            decreases items.len() - i,
        {
            assert(items@.take(i + 1).drop_last() =~= items@.take(i as int));
            if self.lines.len() <= MAX_LINES {
                let item = &items[i];
                proof {
                    assert(decreases_to!(*items => items[i as int]));
                    assert(decreases_to!(items[i as int] => item.children));
                }
                self.start_line();
                self.visit_nodes(&item.children);
            }
            i = i + 1;
        }
        assert(items@.take(items.len() as int) =~= items@);
    }

    /// Visits one node, unless the writer has stopped.
    pub fn visit_node(&mut self, n: &Node)
        ensures
            final(self).lines_view() == describe_node(old(self).lines_view(), *n),
        decreases n,
    {
        if self.lines.len() > MAX_LINES {
            return;
        }
        if self.lines.len() == 0 {
            self.push_line();
            assert(self.lines_view() =~~= seq![seq![]]);
        }
        match n {
            Node::Paragraph { children } => self.visit_paragraph(children),
            Node::List { items } => self.visit_list(items),
            Node::CodeBlock { lines, .. } => self.visit_code_block(lines),
            Node::Table { .. } => {},
            Node::Text { value } => self.push_fragment(Kind::Normal, value.clone()),
            Node::Emphasis { text } => self.push_fragment(Kind::Emphasis, text.clone()),
            Node::ExternalLink { title, url } => self.visit_external_link(title, url),
            Node::InternalLink { title } => self.push_fragment(Kind::Link, title.clone()),
            Node::HashTag { value } => self.visit_hashtag(value),
            Node::Heading { text, .. } => self.push_fragment(Kind::Emphasis, text.clone()),
            Node::BlockQuote { value } => self.push_fragment(Kind::Code, value.clone()),
            // Math is shown as its source text.
            Node::Math { value } => self.push_fragment(Kind::Normal, value.clone()),
            Node::Image { uri } => self.push_fragment(Kind::Image, uri.clone()),
        }
    }

    /// Visits sibling nodes in order.
    pub fn visit_nodes(&mut self, s: &Vec<Node>)
        ensures
            final(self).lines_view() == describe_nodes(old(self).lines_view(), s@),
        decreases s, 0nat,
    {
        let ghost start = self.lines_view();
        let mut i: usize = 0;
        while i < s.len()
            invariant
                0 <= i <= s.len(),
                self.lines_view() == describe_nodes(start, s@.take(i as int)),
            decreases s.len() - i,
        {
            assert(s@.take(i + 1).drop_last() =~= s@.take(i as int));
            self.visit_node(&s[i]);
            i = i + 1;
        }
        assert(s@.take(s.len() as int) =~= s@);
    }

    /// Writes the description of a page after the lines already held; from
    /// a fresh writer, the lines are the page's description.
    pub fn visit(&mut self, page: &Page)
        ensures
            final(self).lines_view() == describe_nodes(old(self).lines_view(), page.nodes@),
            bounded(old(self).lines_view()) ==> bounded(final(self).lines_view()),
    {
        proof {
            if bounded(self.lines_view()) {
                lemma_nodes_bounded(self.lines_view(), page.nodes@);
            }
        }
        self.visit_nodes(&page.nodes);
    }
}

} // verus!

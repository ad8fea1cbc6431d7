use vstd::prelude::*;
use crate::ast::{apply_command, Node, ListItem, Page, TransformCommand};

verus! {

broadcast use {vstd::seq::group_seq_axioms, vstd::std_specs::vec::group_vec_axioms};

/// The image references of a node, in pre-order, one per occurrence.
pub open spec fn images_of_node(n: Node) -> Seq<Seq<char>>
    decreases n,
{
    match n {
        Node::Image { uri } => seq![uri@],
        Node::Paragraph { children } => images_of_nodes(children@),
        Node::List { items } => images_of_items(items@),
        _ => seq![],
    }
}

/// The image references of a sequence of sibling nodes, in order.
pub open spec fn images_of_nodes(s: Seq<Node>) -> Seq<Seq<char>>
    decreases s,
{
    if s.len() == 0 {
        seq![]
    } else {
        images_of_nodes(s.drop_last()) + images_of_node(s.last())
    }
}

/// The image references of the items of a list, in order.
pub open spec fn images_of_items(s: Seq<ListItem>) -> Seq<Seq<char>>
    decreases s,
{
    if s.len() == 0 {
        seq![]
    } else {
        images_of_items(s.drop_last()) + images_of_nodes(s.last().children@)
    }
}

/// `s` with `u` added at its end unless `s` already holds it.
pub open spec fn add_unique(s: Seq<Seq<char>>, u: Seq<char>) -> Seq<Seq<char>> {
    if s.contains(u) {
        s
    } else {
        s.push(u)
    }
}

/// `s` with each reference of `imgs` added in turn, skipping those already held.
pub open spec fn collect_into(s: Seq<Seq<char>>, imgs: Seq<Seq<char>>) -> Seq<Seq<char>>
    decreases imgs.len(),
{
    if imgs.len() == 0 {
        s
    } else {
        add_unique(collect_into(s, imgs.drop_last()), imgs.last())
    }
}

/// The set of distinct image references of a page.
pub open spec fn image_set(page: Page) -> Set<Seq<char>> {
    images_of_nodes(page.nodes@).to_set()
}

/// The value that the first entry of `m` with key `u` maps it to, if any.
pub open spec fn lookup(m: Seq<(String, String)>, u: Seq<char>) -> Option<Seq<char>>
    decreases m.len(),
{
    if m.len() == 0 {
        None
    } else if m[0].0@ == u {
        Some(m[0].1@)
    } else {
        lookup(m.drop_first(), u)
    }
}

/// The reference that `u` becomes under `m`: its mapped value, or itself.
pub open spec fn mapped(m: Seq<(String, String)>, u: Seq<char>) -> Seq<char> {
    match lookup(m, u) {
        Some(v) => v,
        None => u,
    }
}

/// `b` is `a` with each image reference replaced by what `m` maps it to.
pub open spec fn rewritten_node(a: Node, b: Node, m: Seq<(String, String)>) -> bool
    decreases a,
{
    match a {
        Node::Image { uri } => match b {
            Node::Image { uri: v } => v@ == mapped(m, uri@),
            _ => false,
        },
        Node::Paragraph { children } => match b {
            Node::Paragraph { children: c } => rewritten_nodes(children@, c@, m),
            _ => false,
        },
        Node::List { items } => match b {
            Node::List { items: c } => rewritten_items(items@, c@, m),
            _ => false,
        },
        _ => b == a,
    }
}

/// Sibling by sibling, `b` is `a` rewritten under `m`.
pub open spec fn rewritten_nodes(a: Seq<Node>, b: Seq<Node>, m: Seq<(String, String)>) -> bool
    decreases a,
{
    a.len() == b.len() && (a.len() == 0 || (rewritten_nodes(a.drop_last(), b.drop_last(), m)
        && rewritten_node(a.last(), b.last(), m)))
}

/// Item by item, the list items `b` are the items `a` rewritten under `m`.
pub open spec fn rewritten_items(a: Seq<ListItem>, b: Seq<ListItem>, m: Seq<(String, String)>) -> bool
    decreases a,
{
    a.len() == b.len() && (a.len() == 0 || (rewritten_items(a.drop_last(), b.drop_last(), m)
        && rewritten_nodes(a.last().children@, b.last().children@, m)))
}


/// Sibling by sibling reads the same as node by node.
pub proof fn lemma_rewritten_nodes_pointwise(a: Seq<Node>, b: Seq<Node>, m: Seq<(String, String)>)
    ensures
        rewritten_nodes(a, b, m) <==> (a.len() == b.len() && forall|i: int|
            0 <= i < a.len() ==> #[trigger] rewritten_node(a[i], b[i], m)),
    decreases a.len(),
{
    if a.len() == b.len() && a.len() > 0 {
        lemma_rewritten_nodes_pointwise(a.drop_last(), b.drop_last(), m);
        assert(a.last() == a[a.len() - 1] && b.last() == b[b.len() - 1]);
        assert forall|i: int| 0 <= i < a.len() - 1 implies a.drop_last()[i] == a[i] && b.drop_last()[i] == b[i] by {}
        if forall|i: int| 0 <= i < a.len() ==> #[trigger] rewritten_node(a[i], b[i], m) {
            assert forall|i: int| 0 <= i < a.drop_last().len() implies #[trigger] rewritten_node(
                a.drop_last()[i],
                b.drop_last()[i],
                m,
            ) by {
                assert(rewritten_node(a[i], b[i], m));
            }
            assert(rewritten_node(a[a.len() - 1], b[b.len() - 1], m));
        }
        if rewritten_nodes(a, b, m) {
            assert forall|i: int| 0 <= i < a.len() implies #[trigger] rewritten_node(a[i], b[i], m) by {
                if i < a.len() - 1 {
                    assert(rewritten_node(a.drop_last()[i], b.drop_last()[i], m));
                }
            }
        }
    }
}

/// Item by item reads the same as each item's children in turn.
pub proof fn lemma_rewritten_items_pointwise(a: Seq<ListItem>, b: Seq<ListItem>, m: Seq<(String, String)>)
    ensures
        rewritten_items(a, b, m) <==> (a.len() == b.len() && forall|i: int|
            0 <= i < a.len() ==> #[trigger] rewritten_nodes(a[i].children@, b[i].children@, m)),
    decreases a.len(),
{
    if a.len() == b.len() && a.len() > 0 {
        lemma_rewritten_items_pointwise(a.drop_last(), b.drop_last(), m);
        assert(a.last() == a[a.len() - 1] && b.last() == b[b.len() - 1]);
        assert forall|i: int| 0 <= i < a.len() - 1 implies a.drop_last()[i] == a[i] && b.drop_last()[i] == b[i] by {}
        if forall|i: int| 0 <= i < a.len() ==> #[trigger] rewritten_nodes(a[i].children@, b[i].children@, m) {
            assert forall|i: int| 0 <= i < a.drop_last().len() implies #[trigger] rewritten_nodes(
                a.drop_last()[i].children@,
                b.drop_last()[i].children@,
                m,
            ) by {
                assert(rewritten_nodes(a[i].children@, b[i].children@, m));
            }
            assert(rewritten_nodes(a[a.len() - 1].children@, b[b.len() - 1].children@, m));
        }
        if rewritten_items(a, b, m) {
            assert forall|i: int| 0 <= i < a.len() implies #[trigger] rewritten_nodes(a[i].children@, b[i].children@, m) by {
                if i < a.len() - 1 {
                    assert(rewritten_nodes(a.drop_last()[i].children@, b.drop_last()[i].children@, m));
                }
            }
        }
    }
}

/// Pass that gathers the distinct image references of a tree, in the order
/// of their first occurrence.
pub struct ImageUrlCollector {
    pub urls: Vec<String>,
}

impl ImageUrlCollector {
    /// The references gathered so far.
    pub open spec fn url_views(&self) -> Seq<Seq<char>> {
        self.urls@.map_values(|s: String| s@)
    }

    pub fn new() -> (r: Self)
        ensures
            r.url_views() == Seq::<Seq<char>>::empty(),
    {
        ImageUrlCollector { urls: Vec::new() }
    }

    fn insert(&mut self, u: &String)
        ensures
            final(self).url_views() == add_unique(old(self).url_views(), u@),
    {
        let n = self.urls.len();
        let mut i: usize = 0;
        assert(self.urls@.skip(0) =~= self.urls@);
        while i < n
            invariant
                n == self.urls.len(),
                0 <= i <= n,
                forall|j: int| 0 <= j < i ==> self.url_views()[j] != u@,
            decreases n - i,
        {
            if self.urls[i] == *u {
                assert(self.url_views()[i as int] == u@);
                return;
            }
            i = i + 1;
        }
        assert(!self.url_views().contains(u@));
        self.urls.push(u.clone());
        assert(self.url_views() =~= old(self).url_views().push(u@));
    }

    fn visit_image(&mut self, uri: &String) -> (r: Option<TransformCommand>)
        ensures
            r is None,
            final(self).url_views() == add_unique(old(self).url_views(), uri@),
    {
        self.insert(uri);
        None
    }

    /// Gathers the references of one node and everything under it.
    pub fn visit_node(&mut self, n: &Node)
        ensures
            final(self).url_views() == collect_into(old(self).url_views(), images_of_node(*n)),
        decreases n,
    {
        match n {
            Node::Image { uri } => {
                let ghost start = self.url_views();
                let _ = self.visit_image(uri);
                assert(seq![uri@].drop_last() =~= Seq::<Seq<char>>::empty());
                assert(collect_into(start, Seq::<Seq<char>>::empty()) == start);
            },
            Node::Paragraph { children } => {
                self.visit_nodes(children);
            },
            Node::List { items } => {
                self.visit_items(items);
            },
            _ => {},
        }
    }

    /// Gathers the references of the items of a list, in order.
    pub fn visit_items(&mut self, items: &Vec<ListItem>)
        ensures
            final(self).url_views() == collect_into(old(self).url_views(), images_of_items(items@)),
        decreases items,
    {
        let ghost start = self.url_views();
        let mut i: usize = 0;
        while i < items.len()
            invariant
                0 <= i <= items.len(),
                self.url_views() == collect_into(start, images_of_items(items@.take(i as int))),
            decreases items.len() - i,
        {
            let item = &items[i];
            proof {
                assert(decreases_to!(*items => items[i as int]));
                assert(decreases_to!(items[i as int] => item.children));
            }
            self.visit_nodes(&item.children);
            proof {
                lemma_collect_into_concat(start, images_of_items(items@.take(i as int)), images_of_nodes(items[i as int].children@));
                assert(items@.take(i + 1).drop_last() =~= items@.take(i as int));
            }
            i = i + 1;
        }
        assert(items@.take(items.len() as int) =~= items@);
    }

    /// Gathers the references of a sequence of sibling nodes, in order.
    pub fn visit_nodes(&mut self, s: &Vec<Node>)
        ensures
            final(self).url_views() == collect_into(old(self).url_views(), images_of_nodes(s@)),
        decreases s,
    {
        let ghost start = self.url_views();
        let mut i: usize = 0;
        while i < s.len()
            invariant
                0 <= i <= s.len(),
                self.url_views() == collect_into(start, images_of_nodes(s@.take(i as int))),
            decreases s.len() - i,
        {
            self.visit_node(&s[i]);
            proof {
                lemma_collect_into_concat(start, images_of_nodes(s@.take(i as int)), images_of_node(s[i as int]));
                assert(s@.take(i + 1).drop_last() =~= s@.take(i as int));
            }
            i = i + 1;
        }
        assert(s@.take(s.len() as int) =~= s@);
    }

    /// Gathers the references of a whole page: those held before and the
    /// page's distinct references, each once.
    pub fn visit(&mut self, page: &Page)
        ensures
            final(self).url_views() == collect_into(old(self).url_views(), images_of_nodes(page.nodes@)),
            final(self).url_views().to_set() == old(self).url_views().to_set() + image_set(*page),
            old(self).url_views().no_duplicates() ==> final(self).url_views().no_duplicates(),
    {
        self.visit_nodes(&page.nodes);
        proof { lemma_collect_into_set(old(self).url_views(), images_of_nodes(page.nodes@)); }
    }
}

/// Pass that replaces each image reference found among the keys of a
/// mapping by its value, leaving the others as they are.
pub struct ImageUrlRewriter {
    /// Pairs of old and new reference; where a key repeats, its first pair counts.
    pub urls: Vec<(String, String)>,
}

impl ImageUrlRewriter {
    pub fn new(urls: Vec<(String, String)>) -> (r: Self)
        ensures
            r.urls == urls,
    {
        ImageUrlRewriter { urls }
    }

    /// The new reference for `u`, if the mapping has one.
    fn find(&self, u: &String) -> (r: Option<String>)
        ensures
            match r {
                Some(v) => lookup(self.urls@, u@) == Some(v@),
                None => lookup(self.urls@, u@) is None,
            },
    {
        let n = self.urls.len();
        let mut i: usize = 0;
        assert(self.urls@.skip(0) =~= self.urls@);
        while i < n
            invariant
                n == self.urls.len(),
                0 <= i <= n,
                lookup(self.urls@, u@) == lookup(self.urls@.skip(i as int), u@),
            decreases n - i,
        {
            let ghost rest = self.urls@.skip(i as int);
            assert(rest.drop_first() =~= self.urls@.skip(i + 1));
            assert(rest[0] == self.urls@[i as int]);
            if self.urls[i].0 == *u {
                return Some(self.urls[i].1.clone());
            }
            i = i + 1;
        }
        None
    }

    fn visit_image(&self, uri: &String) -> (r: Option<TransformCommand>)
        ensures
            match r {
                Some(TransformCommand::Replace(Node::Image { uri: v })) => lookup(self.urls@, uri@) == Some(v@),
                Some(_) => false,
                None => lookup(self.urls@, uri@) is None,
            },
    {
        match self.find(uri) {
            Some(v) => Some(TransformCommand::Replace(Node::Image { uri: v })),
            None => None,
        }
    }

    /// Rewrites one node and everything under it.
    pub fn rewrite_node(&self, n: Node) -> (r: Node)
        ensures
            rewritten_node(n, r, self.urls@),
        decreases n,
    {
        match n {
            Node::Image { uri } => {
                let command = self.visit_image(&uri);
                apply_command(Node::Image { uri }, command)
            },
            Node::Paragraph { mut children } => {
                self.rewrite_nodes(&mut children);
                Node::Paragraph { children }
            },
            Node::List { mut items } => {
                self.rewrite_items(&mut items);
                Node::List { items }
            },
            other => other,
        }
    }

    /// Rewrites the items of a list, each in place.
    pub fn rewrite_items(&self, v: &mut Vec<ListItem>)
        ensures
            rewritten_items(old(v)@, final(v)@, self.urls@),
        decreases *old(v),
    {
        let mut i: usize = 0;
        while i < v.len()
            invariant
                0 <= i <= v.len(),
                v.len() == old(v).len(),
                forall|j: int| 0 <= j < i ==> #[trigger] rewritten_nodes(old(v)@[j].children@, v@[j].children@, self.urls@),
                forall|j: int| i <= j < v.len() ==> v@[j] == old(v)@[j],
            decreases v.len() - i,
        {
            let item = v.remove(i);
            proof {
                assert(item == old(v)@[i as int]);
                assert(decreases_to!(*old(v) => old(v)[i as int]));
                assert(decreases_to!(*old(v) => item.children));
            }
            let mut children = item.children;
            self.rewrite_nodes(&mut children);
            v.insert(i, ListItem { children });
            i = i + 1;
        }
        proof { lemma_rewritten_items_pointwise(old(v)@, v@, self.urls@); }
    }

    /// Rewrites a sequence of sibling nodes, each in place.
    pub fn rewrite_nodes(&self, v: &mut Vec<Node>)
        ensures
            rewritten_nodes(old(v)@, final(v)@, self.urls@),
        decreases *old(v),
    {
        let mut i: usize = 0;
        while i < v.len()
            invariant
                0 <= i <= v.len(),
                v.len() == old(v).len(),
                forall|j: int| 0 <= j < i ==> #[trigger] rewritten_node(old(v)@[j], v@[j], self.urls@),
                forall|j: int| i <= j < v.len() ==> v@[j] == old(v)@[j],
            decreases v.len() - i,
        {
            let n = v.remove(i);
            proof {
                assert(n == old(v)@[i as int]);
                assert(decreases_to!(*old(v) => old(v)[i as int]));
                assert(decreases_to!(*old(v) => n));
            }
            let r = self.rewrite_node(n);
            v.insert(i, r);
            i = i + 1;
        }
        proof { lemma_rewritten_nodes_pointwise(old(v)@, v@, self.urls@); }
    }

    /// Rewrites the image references of a page in place.
    pub fn visit(&self, page: &mut Page)
        ensures
            rewritten_nodes(old(page).nodes@, final(page).nodes@, self.urls@),
    {
        self.rewrite_nodes(&mut page.nodes);
    }
}

/// Adding two runs of references is adding their concatenation.
pub proof fn lemma_collect_into_concat(s: Seq<Seq<char>>, a: Seq<Seq<char>>, b: Seq<Seq<char>>)
    ensures
        collect_into(collect_into(s, a), b) == collect_into(s, a + b),
    decreases b.len(),
{
    if b.len() == 0 {
        assert(a + b =~= a);
    } else {
        lemma_collect_into_concat(s, a, b.drop_last());
        assert((a + b).drop_last() =~= a + b.drop_last());
        assert((a + b).last() == b.last());
    }
}

/// Each reference of `s` replaced by what `m` maps it to.
pub open spec fn mapped_all(m: Seq<(String, String)>, s: Seq<Seq<char>>) -> Seq<Seq<char>> {
    s.map_values(|u: Seq<char>| mapped(m, u))
}

proof fn lemma_mapped_all_concat(m: Seq<(String, String)>, x: Seq<Seq<char>>, y: Seq<Seq<char>>)
    ensures
        mapped_all(m, x + y) == mapped_all(m, x) + mapped_all(m, y),
{
    assert(mapped_all(m, x + y) =~= mapped_all(m, x) + mapped_all(m, y));
}

proof fn lemma_images_rewritten_node(a: Node, b: Node, m: Seq<(String, String)>)
    requires
        rewritten_node(a, b, m),
    ensures
        images_of_node(b) == mapped_all(m, images_of_node(a)),
    decreases a,
{
    match a {
        Node::Image { uri } => {
            assert(mapped_all(m, seq![uri@]) =~= seq![mapped(m, uri@)]);
        },
        Node::Paragraph { children } => match b {
            Node::Paragraph { children: c } => lemma_images_rewritten_nodes(children@, c@, m),
            _ => {},
        },
        Node::List { items } => match b {
            Node::List { items: c } => lemma_images_rewritten_items(items@, c@, m),
            _ => {},
        },
        _ => {
            assert(mapped_all(m, images_of_node(a)) =~= images_of_node(a));
        },
    }
}

proof fn lemma_images_rewritten_nodes(a: Seq<Node>, b: Seq<Node>, m: Seq<(String, String)>)
    requires
        rewritten_nodes(a, b, m),
    ensures
        images_of_nodes(b) == mapped_all(m, images_of_nodes(a)),
    decreases a,
{
    if a.len() == 0 {
        assert(mapped_all(m, images_of_nodes(a)) =~= Seq::<Seq<char>>::empty());
    } else {
        lemma_images_rewritten_nodes(a.drop_last(), b.drop_last(), m);
        lemma_images_rewritten_node(a.last(), b.last(), m);
        lemma_mapped_all_concat(m, images_of_nodes(a.drop_last()), images_of_node(a.last()));
    }
}

proof fn lemma_images_rewritten_items(a: Seq<ListItem>, b: Seq<ListItem>, m: Seq<(String, String)>)
    requires
        rewritten_items(a, b, m),
    ensures
        images_of_items(b) == mapped_all(m, images_of_items(a)),
    decreases a,
{
    if a.len() == 0 {
        assert(mapped_all(m, images_of_items(a)) =~= Seq::<Seq<char>>::empty());
    } else {
        lemma_images_rewritten_items(a.drop_last(), b.drop_last(), m);
        lemma_images_rewritten_nodes(a.last().children@, b.last().children@, m);
        lemma_mapped_all_concat(m, images_of_items(a.drop_last()), images_of_nodes(a.last().children@));
    }
}

proof fn lemma_mapped_all_set(m: Seq<(String, String)>, s: Seq<Seq<char>>)
    ensures
        mapped_all(m, s).to_set() == s.to_set().map(|u: Seq<char>| mapped(m, u)),
{
    let l = mapped_all(m, s).to_set();
    let r = s.to_set().map(|u: Seq<char>| mapped(m, u));
    assert forall|x: Seq<char>| l.contains(x) implies r.contains(x) by {
        let i = choose|i: int| 0 <= i < mapped_all(m, s).len() && mapped_all(m, s)[i] == x;
        assert(s.to_set().contains(s[i]));
    }
    assert forall|x: Seq<char>| r.contains(x) implies l.contains(x) by {
        let u = choose|u: Seq<char>| s.to_set().contains(u) && x == mapped(m, u);
        let i = choose|i: int| 0 <= i < s.len() && s[i] == u;
        assert(mapped_all(m, s)[i] == x);
    }
    assert(l =~= r);
}

/// Collecting after a rewrite gives the references collected before it,
/// each replaced by its mapped value, unmapped ones unchanged.
pub proof fn lemma_collect_after_rewrite(a: Page, b: Page, m: Seq<(String, String)>)
    requires
        rewritten_nodes(a.nodes@, b.nodes@, m),
    ensures
        images_of_nodes(b.nodes@) == mapped_all(m, images_of_nodes(a.nodes@)),
        image_set(b) == image_set(a).map(|u: Seq<char>| mapped(m, u)),
{
    lemma_images_rewritten_nodes(a.nodes@, b.nodes@, m);
    lemma_mapped_all_set(m, images_of_nodes(a.nodes@));
}

/// A mapping that holds none of a page's references (an empty one, for
/// instance) leaves its references as they were.
pub proof fn lemma_rewrite_unmapped(a: Page, b: Page, m: Seq<(String, String)>)
    requires
        rewritten_nodes(a.nodes@, b.nodes@, m),
        forall|u: Seq<char>| image_set(a).contains(u) ==> lookup(m, u) is None,
    ensures
        images_of_nodes(b.nodes@) == images_of_nodes(a.nodes@),
        image_set(b) == image_set(a),
{
    lemma_images_rewritten_nodes(a.nodes@, b.nodes@, m);
    let s = images_of_nodes(a.nodes@);
    assert forall|i: int| 0 <= i < s.len() implies mapped_all(m, s)[i] == s[i] by {
        assert(image_set(a).contains(s[i]));
    }
    assert(mapped_all(m, s) =~= s);
}

/// The empty mapping maps nothing.
pub proof fn lemma_lookup_empty(u: Seq<char>)
    ensures
        lookup(Seq::<(String, String)>::empty(), u) is None,
{
}

proof fn lemma_concat_contains(x: Seq<Seq<char>>, y: Seq<Seq<char>>)
    ensures
        forall|u: Seq<char>| x.contains(u) ==> (x + y).contains(u),
        forall|u: Seq<char>| y.contains(u) ==> (x + y).contains(u),
{
    assert forall|u: Seq<char>| x.contains(u) implies (x + y).contains(u) by {
        let i = choose|i: int| 0 <= i < x.len() && x[i] == u;
        assert((x + y)[i] == u);
    }
    assert forall|u: Seq<char>| y.contains(u) implies (x + y).contains(u) by {
        let i = choose|i: int| 0 <= i < y.len() && y[i] == u;
        assert((x + y)[x.len() + i] == u);
    }
}

proof fn lemma_agree_node(a: Node, b: Node, m1: Seq<(String, String)>, m2: Seq<(String, String)>)
    requires
        rewritten_node(a, b, m1),
        forall|u: Seq<char>| images_of_node(a).contains(u) ==> lookup(m1, u) == lookup(m2, u),
    ensures
        rewritten_node(a, b, m2),
    decreases a,
{
    match a {
        Node::Image { uri } => {
            assert(images_of_node(a)[0] == uri@);
        },
        Node::Paragraph { children } => match b {
            Node::Paragraph { children: c } => lemma_agree_nodes(children@, c@, m1, m2),
            _ => {},
        },
        Node::List { items } => match b {
            Node::List { items: c } => lemma_agree_items(items@, c@, m1, m2),
            _ => {},
        },
        _ => {},
    }
}

proof fn lemma_agree_nodes(a: Seq<Node>, b: Seq<Node>, m1: Seq<(String, String)>, m2: Seq<(String, String)>)
    requires
        rewritten_nodes(a, b, m1),
        forall|u: Seq<char>| images_of_nodes(a).contains(u) ==> lookup(m1, u) == lookup(m2, u),
    ensures
        rewritten_nodes(a, b, m2),
    decreases a,
{
    if a.len() > 0 {
        lemma_concat_contains(images_of_nodes(a.drop_last()), images_of_node(a.last()));
        lemma_agree_nodes(a.drop_last(), b.drop_last(), m1, m2);
        lemma_agree_node(a.last(), b.last(), m1, m2);
    }
}

proof fn lemma_agree_items(a: Seq<ListItem>, b: Seq<ListItem>, m1: Seq<(String, String)>, m2: Seq<(String, String)>)
    requires
        rewritten_items(a, b, m1),
        forall|u: Seq<char>| images_of_items(a).contains(u) ==> lookup(m1, u) == lookup(m2, u),
    ensures
        rewritten_items(a, b, m2),
    decreases a,
{
    if a.len() > 0 {
        lemma_concat_contains(images_of_items(a.drop_last()), images_of_nodes(a.last().children@));
        lemma_agree_items(a.drop_last(), b.drop_last(), m1, m2);
        lemma_agree_nodes(a.last().children@, b.last().children@, m1, m2);
    }
}

/// Entries whose keys do not occur in a page change nothing: two mappings
/// that agree on the page's references rewrite it alike.
pub proof fn lemma_rewrite_absent_keys(a: Page, b: Page, m1: Seq<(String, String)>, m2: Seq<(String, String)>)
    requires
        rewritten_nodes(a.nodes@, b.nodes@, m1),
        forall|u: Seq<char>| image_set(a).contains(u) ==> lookup(m1, u) == lookup(m2, u),
    ensures
        rewritten_nodes(a.nodes@, b.nodes@, m2),
{
    lemma_agree_nodes(a.nodes@, b.nodes@, m1, m2);
}

/// What collecting adds to the gathered references, as a set, and that it
/// adds no duplicate.
pub proof fn lemma_collect_into_set(s: Seq<Seq<char>>, imgs: Seq<Seq<char>>)
    ensures
        collect_into(s, imgs).to_set() == s.to_set() + imgs.to_set(),
        s.no_duplicates() ==> collect_into(s, imgs).no_duplicates(),
    decreases imgs.len(),
{
    if imgs.len() == 0 {
        assert(imgs.to_set() =~= Set::<Seq<char>>::empty());
        assert(s.to_set() + imgs.to_set() =~= s.to_set());
    } else {
        let p = collect_into(s, imgs.drop_last());
        lemma_collect_into_set(s, imgs.drop_last());
        let u = imgs.last();
        assert(imgs.to_set() =~= imgs.drop_last().to_set().insert(u)) by {
            assert forall|x: Seq<char>| imgs.to_set().contains(x) implies imgs.drop_last().to_set().insert(u).contains(x) by {
                let i = choose|i: int| 0 <= i < imgs.len() && imgs[i] == x;
                if i < imgs.len() - 1 {
                    assert(imgs.drop_last()[i] == x);
                }
            }
            assert forall|x: Seq<char>| imgs.drop_last().to_set().insert(u).contains(x) implies imgs.to_set().contains(x) by {
                if x != u {
                    let i = choose|i: int| 0 <= i < imgs.drop_last().len() && imgs.drop_last()[i] == x;
                    assert(imgs[i] == x);
                } else {
                    assert(imgs[imgs.len() - 1] == x);
                }
            }
        }
        if p.contains(u) {
            assert(p.to_set().contains(u));
            assert(collect_into(s, imgs).to_set() =~= s.to_set() + imgs.to_set());
        } else {
            assert(p.push(u).to_set() =~= p.to_set().insert(u)) by {
                assert forall|x: Seq<char>| p.push(u).to_set().contains(x) implies p.to_set().insert(u).contains(x) by {
                    let i = choose|i: int| 0 <= i < p.push(u).len() && p.push(u)[i] == x;
                    if i < p.len() {
                        assert(p[i] == x);
                    }
                }
                assert forall|x: Seq<char>| p.to_set().insert(u).contains(x) implies p.push(u).to_set().contains(x) by {
                    if x != u {
                        let i = choose|i: int| 0 <= i < p.len() && p[i] == x;
                        assert(p.push(u)[i] == x);
                    } else {
                        assert(p.push(u)[p.len() as int] == x);
                    }
                }
            }
            assert(collect_into(s, imgs).to_set() =~= s.to_set() + imgs.to_set());
            if s.no_duplicates() {
                assert(p.push(u).no_duplicates()) by {
                    assert forall|i: int, j: int| 0 <= i < j < p.push(u).len() implies p.push(u)[i] != p.push(u)[j] by {
                        if j == p.len() {
                            assert(p[i] == p.push(u)[i]);
                        }
                    }
                }
            }
        }
    }
}

/// Collecting the same references a second time adds nothing.
pub proof fn lemma_collect_twice(s: Seq<Seq<char>>, imgs: Seq<Seq<char>>)
    ensures
        collect_into(collect_into(s, imgs), imgs) == collect_into(s, imgs),
{
    lemma_collect_into_set(s, imgs);
    let t = collect_into(s, imgs);
    assert forall|u: Seq<char>| imgs.contains(u) implies t.contains(u) by {
        assert(imgs.to_set().contains(u));
        assert(t.to_set().contains(u));
    }
    lemma_collect_held(t, imgs);
}

proof fn lemma_collect_held(t: Seq<Seq<char>>, imgs: Seq<Seq<char>>)
    requires
        forall|u: Seq<char>| imgs.contains(u) ==> t.contains(u),
    ensures
        collect_into(t, imgs) == t,
    decreases imgs.len(),
{
    if imgs.len() > 0 {
        assert forall|u: Seq<char>| imgs.drop_last().contains(u) implies t.contains(u) by {
            let i = choose|i: int| 0 <= i < imgs.drop_last().len() && imgs.drop_last()[i] == u;
            assert(imgs[i] == u);
        }
        lemma_collect_held(t, imgs.drop_last());
        assert(imgs.contains(imgs[imgs.len() - 1]));
    }
}

} // verus!

//! Finding the media that a text file refers to.
//!
//! The text is parsed as HTML by the `html_parser` crate. What the parser
//! makes of a text it accepts is not modelled here: it has a name. Whether
//! it accepts a text is left open, for that depends on more than the text.
//! Which nodes of the parsed document count is decided and proved here:
//! every root and every node below a root, each root before what is below
//! it. That this is the order of the document is checked on every answer:
//! the elements must come as they start in the text, or there is no answer.

use vstd::prelude::*;
use html_parser::{Dom, Node};
use crate::packet::NodeId;

verus! {

/// `(source_id, file_id)`; a media file has no source.
pub type FileKey = (Option<NodeId>, String);

/// What this crate reads of one node of a parsed document.
#[derive(Debug, PartialEq, Eq)]
pub enum MarkupNode {
    Text,
    Comment,
    /// An element, with its tag name, what it holds under the attribute that
    /// was asked for (nothing, the attribute without a value, or a value),
    /// and the line and column of the text at which it starts.
    Element { name: String, value: Option<Option<String>>, line: usize, column: usize },
}

pub enum MarkupNodeView {
    Text,
    Comment,
    Element { name: Seq<char>, value: Option<Option<Seq<char>>>, line: usize, column: usize },
}

impl View for MarkupNode {
    type V = MarkupNodeView;

    open spec fn view(&self) -> MarkupNodeView {
        match self {
            MarkupNode::Text => MarkupNodeView::Text,
            MarkupNode::Comment => MarkupNodeView::Comment,
            MarkupNode::Element { name, value, line, column } => MarkupNodeView::Element {
                name: name@,
                value: match value {
                    Some(Some(v)) => Some(Some(v@)),
                    Some(None) => Some(None),
                    None => None,
                },
                line: *line,
                column: *column,
            },
        }
    }
}

/// The views of the nodes, in order.
pub open spec fn node_views(nodes: Seq<MarkupNode>) -> Seq<MarkupNodeView> {
    Seq::new(nodes.len(), |i: int| nodes[i]@)
}

/// One root of a parsed document: the root node, and the nodes below it in
/// the order in which the parser's own node iterator walks them.
#[derive(Debug, PartialEq, Eq)]
pub struct MarkupRoot {
    pub node: MarkupNode,
    pub below: Vec<MarkupNode>,
}

pub struct MarkupRootView {
    pub node: MarkupNodeView,
    pub below: Seq<MarkupNodeView>,
}

impl View for MarkupRoot {
    type V = MarkupRootView;

    open spec fn view(&self) -> MarkupRootView {
        MarkupRootView { node: self.node@, below: node_views(self.below@) }
    }
}

/// The views of the roots, in order.
pub open spec fn root_views(roots: Seq<MarkupRoot>) -> Seq<MarkupRootView> {
    Seq::new(roots.len(), |i: int| roots[i]@)
}

/// The nodes of a document in document order: root after root, each root
/// followed by the nodes below it.
pub open spec fn document_order(roots: Seq<MarkupRootView>) -> Seq<MarkupNodeView>
    decreases roots.len(),
{
    if roots.len() == 0 {
        Seq::empty()
    } else {
        document_order(roots.drop_last()) + (seq![roots.last().node] + roots.last().below)
    }
}

/// The characters of each string, in order.
pub open spec fn texts(v: Seq<String>) -> Seq<Seq<char>> {
    Seq::new(v.len(), |i: int| v[i]@)
}

/// The characters of each pair of strings, in order.
pub open spec fn pair_views(v: Seq<(String, String)>) -> Seq<(Seq<char>, Seq<char>)> {
    Seq::new(v.len(), |i: int| (v[i].0@, v[i].1@))
}

/// The views of the keys, in order.
pub open spec fn key_views(v: Seq<FileKey>) -> Seq<(Option<NodeId>, Seq<char>)> {
    Seq::new(v.len(), |i: int| (v[i].0, v[i].1@))
}

/// The keys of media files with the given identifiers.
pub open spec fn media_keys(ids: Seq<Seq<char>>) -> Seq<(Option<NodeId>, Seq<char>)> {
    Seq::new(ids.len(), |i: int| (None::<NodeId>, ids[i]))
}

/// The roots that `html_parser` finds in `text` when it accepts the text,
/// each with the nodes below it, and each node with what it holds under
/// `attribute`.
pub uninterp spec fn parsed_roots(text: Seq<char>, attribute: Seq<char>) -> Option<
    Seq<MarkupRootView>,
>;

/// Calls `html_parser::Dom::parse` on the text. For each root of the
/// document it returns, in the order of `Dom::children`, the list holds the
/// root itself and what the crate's iterator over `&Node` yields for it,
/// which are the nodes below the root. Of each node it keeps the variant and,
/// of an element, its tag name, its entry under `attribute` in the element's
/// attribute table, and the line and column at which its source span starts.
///
/// The contract claims that a document, where one comes back, depends on the
/// two arguments alone. It claims nothing of a refusal: the parser refuses a
/// text that is not well-formed, and it also gives up where elements are
/// nested so deeply that the stack left at the call, or its limit on the
/// number of steps, does not suffice. It says nothing of how long the parser
/// takes either: its grammar backtracks, and on some texts that is very long.
#[verifier::external_body]
fn parse_roots(text: &str, attribute: &str) -> (res: Option<Vec<MarkupRoot>>)
    ensures
        res matches Some(roots) ==> parsed_roots(text@, attribute@) == Some(root_views(roots@)),
{
    let dom = Dom::parse(text).ok()?;
    let brief = |node: &Node| match node {
        Node::Text(_) => MarkupNode::Text,
        Node::Comment(_) => MarkupNode::Comment,
        Node::Element(e) => MarkupNode::Element {
            name: e.name.clone(),
            value: e.attributes.get(attribute).cloned(),
            line: e.source_span.start_line,
            column: e.source_span.start_column,
        },
    };
    Some(dom.children.iter().map(|root| MarkupRoot {
        node: brief(root),
        below: root.into_iter().map(&brief).collect(),
    }).collect())
}

/// The value that a node contributes: that of an element named `tag` whose
/// attribute has one.
pub open spec fn ref_of(node: MarkupNodeView, tag: Seq<char>) -> Option<Seq<char>> {
    match node {
        MarkupNodeView::Element { name, value: Some(Some(v)), line, column } => if name == tag {
            Some(v)
        } else {
            None
        },
        _ => None,
    }
}

/// The attribute values of the elements named `tag`, in the order of the
/// nodes; an element without the attribute, or without a value for it, is
/// passed over.
pub open spec fn refs_in(nodes: Seq<MarkupNodeView>, tag: Seq<char>) -> Seq<Seq<char>>
    decreases nodes.len(),
{
    if nodes.len() == 0 {
        Seq::empty()
    } else {
        match ref_of(nodes.last(), tag) {
            Some(v) => refs_in(nodes.drop_last(), tag).push(v),
            None => refs_in(nodes.drop_last(), tag),
        }
    }
}

/// The references of two lists of nodes, one after the other, are the
/// references of the first list followed by those of the second.
pub proof fn lemma_refs_in_concat(a: Seq<MarkupNodeView>, b: Seq<MarkupNodeView>, tag: Seq<char>)
    ensures
        refs_in(a + b, tag) == refs_in(a, tag) + refs_in(b, tag),
    decreases b.len(),
{
    if b.len() == 0 {
        assert(a + b =~= a);
        assert(refs_in(a, tag) + refs_in(b, tag) =~= refs_in(a, tag));
    } else {
        lemma_refs_in_concat(a, b.drop_last(), tag);
        assert((a + b).drop_last() =~= a + b.drop_last());
        assert((a + b).last() == b.last());
        match ref_of(b.last(), tag) {
            Some(v) => {
                assert(refs_in(a, tag) + refs_in(b.drop_last(), tag).push(v) =~= (refs_in(a, tag)
                    + refs_in(b.drop_last(), tag)).push(v));
            },
            None => {},
        }
    }
}

/// The value that a node contributes, if it is an element named `wanted`
/// whose attribute has a value.
fn node_ref(node: &MarkupNode, wanted: &String) -> (res: Option<String>)
    ensures
        match res {
            Some(v) => ref_of(node@, wanted@) == Some(v@),
            None => ref_of(node@, wanted@).is_none(),
        },
{
    if let MarkupNode::Element { name, value: Some(Some(v)), line: _, column: _ } = node {
        if *name == *wanted {
            return Some(v.clone());
        }
    }
    None
}

/// Collects the attribute values of the elements named `tag`.
pub fn collect_refs(nodes: &Vec<MarkupNode>, tag: &str) -> (res: Vec<String>)
    ensures
        texts(res@) == refs_in(node_views(nodes@), tag@),
{
    let wanted = tag.to_owned();
    let mut res: Vec<String> = Vec::new();
    let mut i: usize = 0;
    assert(node_views(nodes@).take(0) =~= Seq::<MarkupNodeView>::empty());
    assert(texts(res@) =~= Seq::<Seq<char>>::empty());
    while i < nodes.len()
        invariant
            i <= nodes@.len(),
            wanted@ == tag@,
            texts(res@) == refs_in(node_views(nodes@).take(i as int), tag@),
        decreases nodes@.len() - i,
    {
        let ghost before = texts(res@);
        proof {
            let upto = node_views(nodes@).take(i + 1);
            assert(upto.drop_last() =~= node_views(nodes@).take(i as int));
            assert(upto.last() == nodes@[i as int]@);
        }
        if let Some(v) = node_ref(&nodes[i], &wanted) {
            let ghost view = v@;
            res.push(v);
            assert(texts(res@) =~= before.push(view));
        }
        i = i + 1;
    }
    assert(node_views(nodes@).take(nodes@.len() as int) =~= node_views(nodes@));
    res
}

/// Collects the attribute values of the elements named `tag` of a whole
/// document: of every root and of every node below a root, in document order.
pub fn collect_document_refs(roots: &Vec<MarkupRoot>, tag: &str) -> (res: Vec<String>)
    ensures
        texts(res@) == refs_in(document_order(root_views(roots@)), tag@),
{
    let wanted = tag.to_owned();
    let ghost views = root_views(roots@);
    let mut res: Vec<String> = Vec::new();
    let mut i: usize = 0;
    assert(views.take(0) =~= Seq::<MarkupRootView>::empty());
    assert(texts(res@) =~= Seq::<Seq<char>>::empty());
    while i < roots.len()
        invariant
            i <= roots@.len(),
            wanted@ == tag@,
            views == root_views(roots@),
            texts(res@) == refs_in(document_order(views.take(i as int)), tag@),
        decreases roots@.len() - i,
    {
        let ghost before = texts(res@);
        let ghost root = roots@[i as int]@;
        proof {
            let upto = views.take(i + 1);
            assert(upto.drop_last() =~= views.take(i as int));
            assert(upto.last() == root);
            lemma_refs_in_concat(
                document_order(views.take(i as int)),
                seq![root.node] + root.below,
                tag@,
            );
            lemma_refs_in_concat(seq![root.node], root.below, tag@);
            assert(seq![root.node].drop_last() =~= Seq::<MarkupNodeView>::empty());
            assert(refs_in(Seq::<MarkupNodeView>::empty(), tag@) =~= Seq::<Seq<char>>::empty());
            assert(refs_in(seq![root.node], tag@) =~= match ref_of(root.node, tag@) {
                Some(v) => seq![v],
                None => Seq::<Seq<char>>::empty(),
            });
        }
        if let Some(v) = node_ref(&roots[i].node, &wanted) {
            let ghost view = v@;
            res.push(v);
            assert(texts(res@) =~= before.push(view));
        }
        let ghost mid = texts(res@);
        let mut below = collect_refs(&roots[i].below, tag);
        let ghost more = texts(below@);
        res.append(&mut below);
        proof {
            assert(texts(res@) =~= mid + more);
            assert(texts(res@) =~= before + (refs_in(seq![root.node], tag@) + refs_in(
                root.below,
                tag@,
            )));
        }
        i = i + 1;
    }
    assert(views.take(views.len() as int) =~= views);
    res
}

/// Where in the text a node starts, if it is an element: line and column.
pub open spec fn start_of(node: MarkupNodeView) -> Option<(usize, usize)> {
    match node {
        MarkupNodeView::Element { name, value, line, column } => Some((line, column)),
        _ => None,
    }
}

/// Place `a` is before place `b` in the text.
pub open spec fn earlier(a: (usize, usize), b: (usize, usize)) -> bool {
    a.0 < b.0 || (a.0 == b.0 && a.1 < b.1)
}

/// The elements among the nodes come as they start in the text: each starts
/// before every element that comes after it.
pub open spec fn in_text_order(nodes: Seq<MarkupNodeView>) -> bool {
    forall|i: int, j: int|
        0 <= i < j < nodes.len() && start_of(nodes[i]).is_some() && start_of(nodes[j]).is_some()
            ==> earlier(start_of(nodes[i]).unwrap(), start_of(nodes[j]).unwrap())
}

/// `last` is the place of an element among the nodes, and no element among
/// them starts after it; it is `None` where there is no element.
spec fn is_last_start(nodes: Seq<MarkupNodeView>, last: Option<(usize, usize)>) -> bool {
    match last {
        Some(l) => (exists|i: int| 0 <= i < nodes.len() && start_of(#[trigger] nodes[i]) == Some(l))
            && forall|i: int|
            0 <= i < nodes.len() && start_of(#[trigger] nodes[i]).is_some() ==> start_of(
                nodes[i],
            ).unwrap() == l || earlier(start_of(nodes[i]).unwrap(), l),
        None => forall|i: int| 0 <= i < nodes.len() ==> start_of(#[trigger] nodes[i]).is_none(),
    }
}

/// Whether the node may follow nodes whose last element started at `last`,
/// and where the last element starts then.
fn follows(last: Option<(usize, usize)>, node: &MarkupNode, Ghost(seen): Ghost<
    Seq<MarkupNodeView>,
>) -> (res: Option<Option<(usize, usize)>>)
    requires
        in_text_order(seen),
        is_last_start(seen, last),
    ensures
        match res {
            Some(next) => in_text_order(seen.push(node@)) && is_last_start(seen.push(node@), next),
            None => !in_text_order(seen.push(node@)),
        },
{
    let ghost more = seen.push(node@);
    match node {
        MarkupNode::Element { name: _, value: _, line, column } => {
            let here = (*line, *column);
            let after = match last {
                Some(l) => l.0 < here.0 || (l.0 == here.0 && l.1 < here.1),
                None => true,
            };
            if after {
                proof {
                    assert forall|i: int, j: int|
                        0 <= i < j < more.len() && start_of(more[i]).is_some() && start_of(
                            more[j],
                        ).is_some() implies earlier(
                        start_of(more[i]).unwrap(),
                        start_of(more[j]).unwrap(),
                    ) by {
                        assert(more[i] == seen[i]);
                        if j < seen.len() {
                            assert(more[j] == seen[j]);
                        }
                    }
                    assert(start_of(more[seen.len() as int]) == Some(here));
                    assert forall|i: int|
                        0 <= i < more.len() && start_of(#[trigger] more[i]).is_some() implies start_of(
                        more[i],
                    ).unwrap() == here || earlier(start_of(more[i]).unwrap(), here) by {
                        if i < seen.len() {
                            assert(more[i] == seen[i]);
                        }
                    }
                }
                Some(Some(here))
            } else {
                proof {
                    let l = last.unwrap();
                    let i = choose|i: int| 0 <= i < seen.len() && start_of(#[trigger] seen[i]) == Some(l);
                    assert(more[i] == seen[i]);
                    assert(start_of(more[seen.len() as int]) == Some(here));
                    assert(!earlier(
                        start_of(more[i]).unwrap(),
                        start_of(more[seen.len() as int]).unwrap(),
                    ));
                }
                None
            }
        },
        _ => {
            proof {
                assert forall|i: int, j: int|
                    0 <= i < j < more.len() && start_of(more[i]).is_some() && start_of(
                        more[j],
                    ).is_some() implies earlier(
                    start_of(more[i]).unwrap(),
                    start_of(more[j]).unwrap(),
                ) by {
                    assert(more[i] == seen[i]);
                    assert(more[j] == seen[j]);
                }
                match last {
                    Some(l) => {
                        let i = choose|i: int|
                            0 <= i < seen.len() && start_of(#[trigger] seen[i]) == Some(l);
                        assert(more[i] == seen[i]);
                        assert forall|i: int|
                            0 <= i < more.len() && start_of(#[trigger] more[i]).is_some() implies start_of(
                            more[i],
                        ).unwrap() == l || earlier(start_of(more[i]).unwrap(), l) by {
                            assert(more[i] == seen[i]);
                        }
                    },
                    None => {
                        assert forall|i: int| 0 <= i < more.len() implies start_of(
                            #[trigger] more[i],
                        ).is_none() by {
                            if i < seen.len() {
                                assert(more[i] == seen[i]);
                            }
                        }
                    },
                }
            }
            Some(last)
        },
    }
}

/// Whether the elements of the document come as they start in the text.
pub fn is_in_text_order(roots: &Vec<MarkupRoot>) -> (res: bool)
    ensures
        res == in_text_order(document_order(root_views(roots@))),
{
    let ghost views = root_views(roots@);
    let ghost mut seen: Seq<MarkupNodeView> = Seq::empty();
    let mut last: Option<(usize, usize)> = None;
    let mut ok = true;
    let mut i: usize = 0;
    assert(views.take(0) =~= Seq::<MarkupRootView>::empty());
    while i < roots.len()
        invariant
            i <= roots@.len(),
            views == root_views(roots@),
            seen == document_order(views.take(i as int)),
            ok == in_text_order(seen),
            ok ==> is_last_start(seen, last),
        decreases roots@.len() - i,
    {
        let ghost root = roots@[i as int]@;
        let ghost before = seen;
        proof {
            let upto = views.take(i + 1);
            assert(upto.drop_last() =~= views.take(i as int));
            assert(upto.last() == root);
        }
        if ok {
            match follows(last, &roots[i].node, Ghost(seen)) {
                Some(next) => {
                    last = next;
                },
                None => {
                    ok = false;
                },
            }
        } else {
            proof {
                lemma_order_of_more(seen, root.node);
            }
        }
        proof {
            seen = seen.push(root.node);
            assert(root.below.take(0) =~= Seq::<MarkupNodeView>::empty());
            assert(seen =~= before + (seq![root.node] + root.below.take(0)));
        }
        let mut k: usize = 0;
        while k < roots[i].below.len()
            invariant
                i < roots@.len(),
                root == roots@[i as int]@,
                k <= root.below.len(),
                root.below.len() == roots@[i as int].below@.len(),
                seen == before + (seq![root.node] + root.below.take(k as int)),
                ok == in_text_order(seen),
                ok ==> is_last_start(seen, last),
            decreases root.below.len() - k,
        {
            let ghost mid = seen;
            proof {
                assert(root.below[k as int] == roots@[i as int].below@[k as int]@);
            }
            if ok {
                match follows(last, &roots[i].below[k], Ghost(seen)) {
                    Some(next) => {
                        last = next;
                    },
                    None => {
                        ok = false;
                    },
                }
            } else {
                proof {
                    lemma_order_of_more(seen, root.below[k as int]);
                }
            }
            proof {
                seen = seen.push(root.below[k as int]);
                assert(root.below.take(k + 1) =~= root.below.take(k as int).push(
                    root.below[k as int],
                ));
                assert(seen =~= before + (seq![root.node] + root.below.take(k + 1)));
            }
            k = k + 1;
        }
        proof {
            assert(root.below.take(root.below.len() as int) =~= root.below);
        }
        i = i + 1;
    }
    proof {
        assert(views.take(views.len() as int) =~= views);
    }
    ok
}

/// Nodes that are out of order stay so when one more follows.
proof fn lemma_order_of_more(seen: Seq<MarkupNodeView>, node: MarkupNodeView)
    requires
        !in_text_order(seen),
    ensures
        !in_text_order(seen.push(node)),
{
    let more = seen.push(node);
    if in_text_order(more) {
        assert forall|i: int, j: int|
            0 <= i < j < seen.len() && start_of(seen[i]).is_some() && start_of(
                seen[j],
            ).is_some() implies earlier(start_of(seen[i]).unwrap(), start_of(seen[j]).unwrap()) by {
            assert(more[i] == seen[i]);
            assert(more[j] == seen[j]);
        }
    }
}

/// The media that a parsed document refers to: the `src` of each of its
/// `img` elements, in document order, as keys of media files.
pub fn document_keys(roots: &Vec<MarkupRoot>) -> (res: Vec<FileKey>)
    ensures
        key_views(res@) == media_keys(refs_in(document_order(root_views(roots@)), "img"@)),
{
    let ids = collect_document_refs(roots, "img");
    let mut res: Vec<FileKey> = Vec::new();
    let mut i: usize = 0;
    while i < ids.len()
        invariant
            i <= ids@.len(),
            res@.len() == i,
            forall|j: int|
                0 <= j < i ==> (#[trigger] res@[j]).0.is_none() && res@[j].1@ == ids@[j]@,
        decreases ids@.len() - i,
    {
        res.push((None, ids[i].clone()));
        i = i + 1;
    }
    assert(key_views(res@) =~= media_keys(texts(ids@)));
    res
}

/// The media that a text file refers to, where the parser accepts the text
/// and lists the elements of its document as they start in the text: the
/// keys of that document. In any other case there is no answer.
pub fn search_ref(file: &str) -> (res: Option<Vec<FileKey>>)
    ensures
        res matches Some(keys) ==> (parsed_roots(file@, "src"@) matches Some(roots)
            && in_text_order(document_order(roots)) && key_views(keys@) == media_keys(
            refs_in(document_order(roots), "img"@),
        )),
{
    match parse_roots(file, "src") {
        None => None,
        Some(roots) => if is_in_text_order(&roots) {
            Some(document_keys(&roots))
        } else {
            None
        },
    }
}

} // verus!

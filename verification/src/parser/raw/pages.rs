//! The page tree.

use std::collections::{BTreeMap, HashSet};

use vstd::prelude::*;
use vstd::string::*;

use super::ascii::same_bytes;
use super::document;
use super::document::{DocSpec, RawDocument};
use super::object;
use super::object::{dict_get, Obj, PdfObject};
use super::xref;
use super::xref::key_of;
use crate::count;
use crate::count::count_up;

verus! {

/// Result of walking the page tree: the pages found, and what the walk had to drop.
#[derive(Debug)]
pub struct PageTreeScan {
    /// 1-based page number to object id.
    pub pages: BTreeMap<u32, (u32, u16)>,
    /// Page-tree nodes the walk could not use: an unresolvable reference, a kid that
    /// is not a reference, a node that is neither `/Page` nor `/Pages`, or a missing
    /// catalog / root `Pages` entry.
    ///
    /// This is **not** a count of lost pages: an unusable intermediate `Pages` node
    /// drops its entire subtree, so one unresolved node can cost many pages. Treat any
    /// non-zero value as "the page set is incomplete" and nothing more.
    pub unresolved_nodes: usize,
}

impl Default for PageTreeScan {
    fn default() -> (scan: PageTreeScan)
        ensures
            scan.pages@ == Map::<u32, (u32, u16)>::empty(),
            scan.unresolved_nodes == 0,
    {
        PageTreeScan { pages: BTreeMap::new(), unresolved_nodes: 0 }
    }
}

impl Clone for PageTreeScan {
    fn clone(&self) -> (scan: PageTreeScan)
        ensures
            scan.pages@ == self.pages@,
            scan.unresolved_nodes == self.unresolved_nodes,
    {
        PageTreeScan { pages: self.pages.clone(), unresolved_nodes: self.unresolved_nodes }
    }
}

/// What the page tree has at an object id.
pub enum Node {
    /// A page.
    Page,
    /// An inner node, and its kids.
    Tree(Seq<Obj>),
    /// Nothing that can be used.
    Unusable,
}

/// What the page tree has at `id`. `/Type` is optional on inner nodes.
pub open spec fn node_at(objects: Map<(u32, u16), Obj>, id: (u32, u16)) -> Node {
    match document::dict_of(objects, id) {
        Ok(m) => {
            let kind = object::name_entry(m, "Type".spec_bytes());
            if kind == Some("Page".spec_bytes()) {
                Node::Page
            } else if kind is None || kind == Some("Pages".spec_bytes()) {
                match object::array_entry(m, "Kids".spec_bytes()) {
                    Some(kids) => Node::Tree(kids),
                    None => Node::Tree(Seq::empty()),
                }
            } else {
                Node::Unusable
            }
        },
        Err(_) => Node::Unusable,
    }
}

/// The ids among `kids`, in order.
pub open spec fn kid_ids(kids: Seq<Obj>) -> Seq<(u32, u16)>
    decreases kids.len(),
{
    if kids.len() == 0 {
        Seq::empty()
    } else {
        match kids[0] {
            Obj::Reference(n, g) => seq![(n, g)] + kid_ids(kids.skip(1)),
            _ => kid_ids(kids.skip(1)),
        }
    }
}

/// How many of `kids` are not references.
pub open spec fn lost_kids(kids: Seq<Obj>) -> nat
    decreases kids.len(),
{
    if kids.len() == 0 {
        0
    } else if kids[0] is Reference {
        lost_kids(kids.skip(1))
    } else {
        lost_kids(kids.skip(1)) + 1
    }
}

/// The pages below `todo`, in document order, and how many nodes cannot be used. What is in
/// `visited` was walked already.
pub open spec fn walk(
    objects: Map<(u32, u16), Obj>,
    todo: Seq<(u32, u16)>,
    visited: Set<(u32, u16)>,
) -> (Seq<(u32, u16)>, nat)
    decreases objects.dom().difference(visited).len(), todo.len(),
    when objects.dom().finite()
{
    if todo.len() == 0 {
        (Seq::empty(), 0)
    } else if visited.contains(todo[0]) {
        walk(objects, todo.skip(1), visited)
    } else {
        proof {
            lemma_visit(objects, todo[0], visited);
        }
        let id = todo[0];
        let rest = todo.skip(1);
        match node_at(objects, id) {
            Node::Page => {
                let r = walk(objects, rest, visited.insert(id));
                (seq![id] + r.0, r.1)
            },
            Node::Tree(kids) => {
                let r = walk(objects, kid_ids(kids) + rest, visited.insert(id));
                (r.0, r.1 + lost_kids(kids))
            },
            Node::Unusable => {
                let r = walk(objects, rest, visited.insert(id));
                (r.0, r.1 + 1)
            },
        }
    }
}

/// Visiting a node that can be used leaves fewer to visit, and visiting another leaves no
/// more.
pub proof fn lemma_visit(
    objects: Map<(u32, u16), Obj>,
    id: (u32, u16),
    visited: Set<(u32, u16)>,
)
    requires
        objects.dom().finite(),
        !visited.contains(id),
    ensures
        objects.dom().difference(visited.insert(id)).len() <= objects.dom().difference(
            visited,
        ).len(),
        !(node_at(objects, id) is Unusable) ==> objects.dom().difference(visited.insert(id)).len()
            < objects.dom().difference(visited).len(),
{
    let left = objects.dom().difference(visited);
    assert(objects.dom().difference(visited.insert(id)) =~= left.remove(id));
    if !(node_at(objects, id) is Unusable) {
        assert(left.contains(id));
    }
}

/// The pages of a document, in document order, and how many nodes of its page tree cannot be
/// used. A document without a root of its page tree loses all pages at once.
pub open spec fn scan_of(doc: DocSpec) -> (Seq<(u32, u16)>, nat) {
    match document::page_root(doc) {
        Some(root) => walk(doc.objects, seq![root], Set::empty()),
        None => (Seq::empty(), 1),
    }
}

/// The number of the page at place `i`, counted from zero. Numbers wrap around.
pub open spec fn page_number(i: int) -> u32 {
    ((i + 1) % 0x1_0000_0000) as u32
}

/// Each page under its number.
pub open spec fn numbered(pages: Seq<(u32, u16)>) -> Map<u32, (u32, u16)>
    decreases pages.len(),
{
    if pages.len() == 0 {
        Map::empty()
    } else {
        numbered(pages.drop_last()).insert(page_number(pages.len() - 1), pages.last())
    }
}

/// Whether `keys` holds the ids in `ids`.
#[verifier::opaque]
spec fn marks(keys: Set<u64>, ids: Set<(u32, u16)>) -> bool {
    forall|id: (u32, u16)| keys.contains(#[trigger] xref::id_key(id)) == ids.contains(id)
}

/// Marks `id`, and says whether it was not marked before.
fn mark(keys: &mut HashSet<u64>, id: (u32, u16), Ghost(ids): Ghost<Set<(u32, u16)>>) -> (r: bool)
    requires
        marks(old(keys)@, ids),
    ensures
        r == !ids.contains(id),
        marks(final(keys)@, ids.insert(id)),
{
    broadcast use vstd::std_specs::hash::group_hash_axioms;

    reveal(marks);
    let r = keys.insert(key_of(id));
    assert forall|other: (u32, u16)|
        keys@.contains(#[trigger] xref::id_key(other)) == ids.insert(id).contains(other) by {
        xref::lemma_id_key(other);
        xref::lemma_id_key(id);
    }
    r
}

/// Pushes the ids among `kids` so that the first one comes off first, and counts the others on.
fn push_kids(
    kids: &[PdfObject],
    stack: &mut Vec<(u32, u16)>,
    unresolved: usize,
    Ghost(total): Ghost<nat>,
) -> (r: usize)
    requires
        unresolved == count::wrapped(total),
    ensures
        final(stack)@.reverse() == kid_ids(object::objects_view(kids@)) + old(stack)@.reverse(),
        r == count::wrapped(total + lost_kids(object::objects_view(kids@))),
{
    let ghost all = object::objects_view(kids@);
    let mut count: usize = unresolved;
    let mut i: usize = kids.len();
    assert(all.skip(all.len() as int) =~= Seq::<Obj>::empty());
    assert(stack@.reverse() =~= kid_ids(all.skip(i as int)) + old(stack)@.reverse());
    while i > 0
        invariant
            i <= kids@.len(),
            all == object::objects_view(kids@),
            stack@.reverse() == kid_ids(all.skip(i as int)) + old(stack)@.reverse(),
            count == count::wrapped(total + lost_kids(all.skip(i as int))),
        decreases i,
    {
        i -= 1;
        assert(all.skip(i as int).skip(1) =~= all.skip(i + 1));
        assert(all.skip(i as int)[0] == kids@[i as int]@);
        match kids[i].as_reference() {
            Some(id) => {
                let ghost before = stack@;
                stack.push(id);
                assert(stack@.reverse() =~= seq![id] + before.reverse());
                assert(stack@.reverse() =~= kid_ids(all.skip(i as int)) + old(stack)@.reverse());
            },
            None => {
                count = count_up(count, Ghost(total + lost_kids(all.skip(i + 1))));
            },
        }
    }
    assert(all.skip(0) =~= all);
    count
}

impl RawDocument {
    /// Walk the page tree, reporting both the pages reached and what had to be dropped.
    ///
    /// Depth-first over an explicit stack rather than by recursion: the page tree of a
    /// damaged (or hostile) file can nest arbitrarily deep or point back at itself, and
    /// neither may cost the caller its stack. A `visited` set makes cycles terminate.
    pub fn scan_page_tree(&self) -> (scan: PageTreeScan)
        ensures
            scan.pages@ == numbered(scan_of(self@).0),
            scan.unresolved_nodes == count::wrapped(scan_of(self@).1),
    {
        broadcast use vstd::std_specs::hash::group_hash_axioms;
        broadcast use vstd::std_specs::btree::group_btree_axioms;

        let mut scan = PageTreeScan::default();
        let ghost objects = self@.objects;
        proof {
            document::lemma_finite(*self);
        }
        let root = match self.page_tree_root() {
            Some(root) => root,
            None => {
                scan.unresolved_nodes = count_up(0, Ghost(0));
                return scan;
            },
        };
        let ghost whole = walk(objects, seq![root], Set::empty());
        let ghost mut found = Seq::<(u32, u16)>::empty();
        let ghost mut lost: nat = 0;
        let ghost mut ids = Set::<(u32, u16)>::empty();
        let mut page_num: u32 = 1;
        let mut visited: HashSet<u64> = HashSet::new();
        let mut stack: Vec<(u32, u16)> = Vec::new();
        stack.push(root);
        proof {
            assert(stack@.reverse() =~= seq![root]);
            assert(found + whole.0 =~= whole.0);
            assert(marks(visited@, ids)) by {
                reveal(marks);
            }
        }
        while stack.len() > 0
            invariant
                objects == self@.objects,
                objects.dom().finite(),
                whole.0 == found + walk(objects, stack@.reverse(), ids).0,
                whole.1 == lost + walk(objects, stack@.reverse(), ids).1,
                scan.pages@ == numbered(found),
                scan.unresolved_nodes == count::wrapped(lost),
                page_num == page_number(found.len() as int),
                marks(visited@, ids),
            decreases objects.dom().difference(ids).len(), stack@.len(),
        {
            let ghost todo = stack@.reverse();
            let node_id = stack.pop().unwrap();
            assert(todo.skip(1) =~= stack@.reverse());
            assert(todo[0] == node_id);
            let ghost before = ids;
            if mark(&mut visited, node_id, Ghost(ids)) {
                proof {
                    lemma_visit(objects, node_id, ids);
                    ids = ids.insert(node_id);
                }
                match self.get_dict(node_id) {
                    Ok(dict) => {
                        let kind = match dict_get(dict, "Type".as_bytes()) {
                            Some(o) => o.as_name(),
                            None => None,
                        };
                        let is_page = match kind {
                            Some(name) => same_bytes(name, "Page".as_bytes()),
                            None => false,
                        };
                        let is_tree = match kind {
                            Some(name) => same_bytes(name, "Pages".as_bytes()),
                            None => true,
                        };
                        if is_page {
                            scan.pages.insert(page_num, node_id);
                            page_num = page_num.wrapping_add(1);
                            proof {
                                let r = walk(objects, stack@.reverse(), ids);
                                assert(found + (seq![node_id] + r.0) =~= found.push(node_id) + r.0);
                                assert(found.push(node_id).drop_last() =~= found);
                                found = found.push(node_id);
                            }
                        } else if is_tree {
                            let ghost kids = match object::array_entry(
                                dict@,
                                "Kids".spec_bytes(),
                            ) {
                                Some(kids) => kids,
                                None => Seq::empty(),
                            };
                            assert(node_at(objects, node_id) == Node::Tree(kids));
                            let ghost rest = stack@.reverse();
                            match dict_get(dict, "Kids".as_bytes()) {
                                Some(o) => match o.as_array() {
                                    Some(items) => {
                                        scan.unresolved_nodes = push_kids(
                                            items,
                                            &mut stack,
                                            scan.unresolved_nodes,
                                            Ghost(lost),
                                        );
                                    },
                                    None => {},
                                },
                                None => {},
                            }
                            assert(stack@.reverse() =~= kid_ids(kids) + rest);
                            proof {
                                lost = lost + lost_kids(kids);
                            }
                        } else {
                            scan.unresolved_nodes = count_up(scan.unresolved_nodes, Ghost(lost));
                            proof {
                                lost = lost + 1;
                            }
                        }
                    },
                    Err(_) => {
                        scan.unresolved_nodes = count_up(scan.unresolved_nodes, Ghost(lost));
                        proof {
                            lost = lost + 1;
                        }
                    },
                }
            } else {
                assert(ids.insert(node_id) =~= ids);
            }
        }
        assert(stack@.reverse() =~= Seq::<(u32, u16)>::empty());
        assert(found + Seq::<(u32, u16)>::empty() =~= found);
        scan
    }

    /// Get all pages as (1-based page_number -> (obj_num, gen_num)).
    /// Traverses the page tree: Catalog -> Pages -> Kids.
    pub fn pages(&self) -> (r: BTreeMap<u32, (u32, u16)>)
        ensures
            r@ == numbered(scan_of(self@).0),
    {
        self.scan_page_tree().pages
    }

    /// Get the number of pages.
    pub fn page_count(&self) -> (n: u32)
        ensures
            n == numbered(scan_of(self@).0).len() as u32,
    {
        broadcast use vstd::std_specs::btree::group_btree_axioms;

        self.pages().len() as u32
    }
}

} // verus!

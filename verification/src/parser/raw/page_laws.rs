//! What holds of every walk of a page tree.

use vstd::prelude::*;
use vstd::string::*;

use super::document;
use super::document::DocSpec;
use super::object;
use super::object::Obj;
use super::pages;
use super::pages::Node;

verus! {

/// Whether `b` is a kid of the inner node `a`.
pub open spec fn is_kid(objects: Map<(u32, u16), Obj>, a: (u32, u16), b: (u32, u16)) -> bool {
    pages::node_at(objects, a) matches Node::Tree(kids) && pages::kid_ids(kids).contains(b)
}

/// Whether `p` leads down the page tree, from a node to one of its kids and so on.
pub open spec fn is_path(objects: Map<(u32, u16), Obj>, p: Seq<(u32, u16)>) -> bool {
    p.len() > 0 && forall|i: int, j: int|
        0 <= i < p.len() - 1 && j == i + 1 ==> is_kid(objects, #[trigger] p[i], #[trigger] p[j])
}

/// Whether the page tree leads from `a` to `b`.
pub open spec fn reachable(objects: Map<(u32, u16), Obj>, a: (u32, u16), b: (u32, u16)) -> bool {
    exists|p: Seq<(u32, u16)>| #[trigger] is_path(objects, p) && p[0] == a && p.last() == b
}

/// Whether nothing is lost at `id`: it is a page, or an inner node with nothing but references
/// for kids.
pub open spec fn usable(objects: Map<(u32, u16), Obj>, id: (u32, u16)) -> bool {
    match pages::node_at(objects, id) {
        Node::Page => true,
        Node::Tree(kids) => pages::lost_kids(kids) == 0,
        Node::Unusable => false,
    }
}

/// The nodes that were visited once the walk is over.
pub open spec fn walked(
    objects: Map<(u32, u16), Obj>,
    todo: Seq<(u32, u16)>,
    visited: Set<(u32, u16)>,
) -> Set<(u32, u16)>
    decreases objects.dom().difference(visited).len(), todo.len(),
    when objects.dom().finite()
{
    if todo.len() == 0 {
        visited
    } else if visited.contains(todo[0]) {
        walked(objects, todo.skip(1), visited)
    } else {
        proof {
            pages::lemma_visit(objects, todo[0], visited);
        }
        let id = todo[0];
        let rest = todo.skip(1);
        match pages::node_at(objects, id) {
            Node::Tree(kids) => walked(objects, pages::kid_ids(kids) + rest, visited.insert(id)),
            _ => walked(objects, rest, visited.insert(id)),
        }
    }
}

/// Whether the kids of `id` are all in `v`.
pub open spec fn kids_in(
    objects: Map<(u32, u16), Obj>,
    id: (u32, u16),
    v: Set<(u32, u16)>,
) -> bool {
    forall|kid: (u32, u16)| #[trigger] is_kid(objects, id, kid) ==> v.contains(kid)
}

/// Whether the page tree leads to `id` from somewhere in `todo`.
pub open spec fn below(
    objects: Map<(u32, u16), Obj>,
    todo: Seq<(u32, u16)>,
    id: (u32, u16),
) -> bool {
    exists|a: (u32, u16)| todo.contains(a) && #[trigger] reachable(objects, a, id)
}

proof fn lemma_reaches_itself(objects: Map<(u32, u16), Obj>, a: (u32, u16))
    ensures
        reachable(objects, a, a),
{
    let p = seq![a];
    assert(is_path(objects, p));
    assert(p.last() == a);
}

proof fn lemma_reaches_further(
    objects: Map<(u32, u16), Obj>,
    a: (u32, u16),
    b: (u32, u16),
    c: (u32, u16),
)
    requires
        is_kid(objects, a, b),
        reachable(objects, b, c),
    ensures
        reachable(objects, a, c),
{
    let p = choose|p: Seq<(u32, u16)>| #[trigger] is_path(objects, p) && p[0] == b && p.last() == c;
    let q = seq![a] + p;
    assert forall|i: int, j: int| 0 <= i < q.len() - 1 && j == i + 1 implies is_kid(
        objects,
        #[trigger] q[i],
        #[trigger] q[j],
    ) by {
        if i > 0 {
            assert(q[i] == p[i - 1] && q[j] == p[j - 1]);
        }
    }
    assert(is_path(objects, q));
    assert(q[0] == a && q.last() == c);
}

/// What the walk visits, lists and counts.
proof fn lemma_walk(
    objects: Map<(u32, u16), Obj>,
    todo: Seq<(u32, u16)>,
    visited: Set<(u32, u16)>,
)
    requires
        objects.dom().finite(),
    ensures
        ({
            let v = walked(objects, todo, visited);
            let r = pages::walk(objects, todo, visited);
            &&& visited.subset_of(v)
            &&& forall|id: (u32, u16)| todo.contains(id) ==> #[trigger] v.contains(id)
            &&& forall|id: (u32, u16)| #[trigger]
                v.contains(id) && !visited.contains(id) ==> kids_in(objects, id, v) && below(
                    objects,
                    todo,
                    id,
                )
            &&& forall|id: (u32, u16)| #[trigger]
                r.0.contains(id) <==> v.contains(id) && !visited.contains(id) && pages::node_at(
                    objects,
                    id,
                ) is Page
            &&& r.0.no_duplicates()
            &&& r.1 == 0 <==> forall|id: (u32, u16)| #[trigger]
                v.contains(id) && !visited.contains(id) ==> usable(objects, id)
        }),
    decreases objects.dom().difference(visited).len(), todo.len(),
{
    let v = walked(objects, todo, visited);
    let r = pages::walk(objects, todo, visited);
    if todo.len() == 0 {
    } else {
        let id = todo[0];
        let rest = todo.skip(1);
        assert(todo =~= seq![id] + rest);
        assert forall|x: (u32, u16)| todo.contains(x) implies x == id || rest.contains(x) by {
            let i = todo.index_of(x);
            if i > 0 {
                assert(rest[i - 1] == x);
            }
        }
        assert forall|x: (u32, u16)| rest.contains(x) implies todo.contains(x) by {
            let i = rest.index_of(x);
            assert(todo[i + 1] == x);
        }
        assert(todo.contains(id));
        if visited.contains(id) {
            lemma_walk(objects, rest, visited);
            assert forall|x: (u32, u16)| below(objects, rest, x) implies below(
                objects,
                todo,
                x,
            ) by {
                let a = choose|a: (u32, u16)|
                    rest.contains(a) && #[trigger] reachable(objects, a, x);
                assert(todo.contains(a) && reachable(objects, a, x));
            }
        } else {
            pages::lemma_visit(objects, id, visited);
            let next = match pages::node_at(objects, id) {
                Node::Tree(kids) => pages::kid_ids(kids) + rest,
                _ => rest,
            };
            lemma_walk(objects, next, visited.insert(id));
            let s = pages::walk(objects, next, visited.insert(id));
            lemma_reaches_itself(objects, id);
            assert(below(objects, todo, id));
            assert forall|x: (u32, u16)| below(objects, next, x) implies below(
                objects,
                todo,
                x,
            ) by {
                let a = choose|a: (u32, u16)|
                    next.contains(a) && #[trigger] reachable(objects, a, x);
                if rest.contains(a) {
                    assert(todo.contains(a) && reachable(objects, a, x));
                } else {
                    let kids = pages::node_at(objects, id)->Tree_0;
                    let i = next.index_of(a);
                    if i >= pages::kid_ids(kids).len() {
                        assert(rest[i - pages::kid_ids(kids).len()] == a);
                    }
                    assert(pages::kid_ids(kids)[i] == a);
                    assert(is_kid(objects, id, a));
                    lemma_reaches_further(objects, id, a, x);
                    assert(todo.contains(id) && reachable(objects, id, x));
                }
            }
            assert forall|x: (u32, u16)| todo.contains(x) implies #[trigger] v.contains(x) by {
                if x != id {
                    let i = rest.index_of(x);
                    if let Node::Tree(kids) = pages::node_at(objects, id) {
                        assert(next[pages::kid_ids(kids).len() + i] == x);
                    }
                    assert(next.contains(x));
                }
            }
            assert(v.contains(id));
            assert(kids_in(objects, id, v)) by {
                assert forall|kid: (u32, u16)| #[trigger] is_kid(
                    objects,
                    id,
                    kid,
                ) implies v.contains(kid) by {
                    let kids = pages::node_at(objects, id)->Tree_0;
                    let i = pages::kid_ids(kids).index_of(kid);
                    assert(next[i] == kid);
                    assert(next.contains(kid));
                }
            }
            assert forall|x: (u32, u16)| #[trigger] r.0.contains(x) <==> v.contains(x)
                && !visited.contains(x) && pages::node_at(objects, x) is Page by {
                if pages::node_at(objects, id) is Page {
                    if s.0.contains(x) {
                        let i = s.0.index_of(x);
                        assert(r.0[i + 1] == x);
                    }
                    if x == id {
                        assert(r.0[0] == x);
                    }
                    if r.0.contains(x) && x != id {
                        let i = r.0.index_of(x);
                        assert(s.0[i - 1] == x);
                    }
                    assert(s.0.contains(x) <==> v.contains(x) && !visited.insert(id).contains(x)
                        && pages::node_at(objects, x) is Page);
                } else {
                    assert(s.0.contains(x) <==> v.contains(x) && !visited.insert(id).contains(x)
                        && pages::node_at(objects, x) is Page);
                }
            }
            assert(!s.0.contains(id));
            assert(r.0.no_duplicates()) by {
                if pages::node_at(objects, id) is Page {
                    assert forall|i: int, j: int|
                        0 <= i < r.0.len() && 0 <= j < r.0.len() && i != j implies r.0[i]
                        != r.0[j] by {
                        if i > 0 {
                            assert(r.0[i] == s.0[i - 1]);
                        }
                        if j > 0 {
                            assert(r.0[j] == s.0[j - 1]);
                        }
                    }
                }
            }
            if s.1 == 0 {
                assert(r.1 == 0 <==> usable(objects, id));
            } else {
                let x = choose|x: (u32, u16)| #[trigger]
                    v.contains(x) && !visited.insert(id).contains(x) && !usable(objects, x);
                assert(v.contains(x) && !visited.contains(x) && !usable(objects, x));
            }
        }
    }
}

/// Everything on a path from a visited node is visited.
proof fn lemma_path_visited(
    objects: Map<(u32, u16), Obj>,
    p: Seq<(u32, u16)>,
    v: Set<(u32, u16)>,
    n: int,
)
    requires
        is_path(objects, p),
        v.contains(p[0]),
        forall|id: (u32, u16)| #[trigger] v.contains(id) ==> kids_in(objects, id, v),
        0 <= n < p.len(),
    ensures
        v.contains(p[n]),
    decreases n,
{
    if n > 0 {
        lemma_path_visited(objects, p, v, n - 1);
        assert(is_kid(objects, p[n - 1], p[n]));
        assert(kids_in(objects, p[n - 1], v));
    }
}

/// The walk from a root visits what can be reached from it.
proof fn lemma_walked_from_root(
    objects: Map<(u32, u16), Obj>,
    root: (u32, u16),
    id: (u32, u16),
)
    requires
        objects.dom().finite(),
    ensures
        walked(objects, seq![root], Set::empty()).contains(id) <==> reachable(objects, root, id),
{
    let todo = seq![root];
    let v = walked(objects, todo, Set::empty());
    lemma_walk(objects, todo, Set::empty());
    assert(todo.contains(root)) by {
        assert(todo[0] == root);
    }
    if v.contains(id) {
        assert(below(objects, todo, id));
    }
    if reachable(objects, root, id) {
        let p = choose|p: Seq<(u32, u16)>| #[trigger]
            is_path(objects, p) && p[0] == root && p.last() == id;
        assert(v.contains(root));
        lemma_path_visited(objects, p, v, p.len() - 1);
    }
}

/// The pages of a document are the page nodes that can be reached from the root of its page
/// tree: none of them is missing, and nothing else is listed.
pub proof fn listed_pages_are_the_reachable_ones(
    doc: DocSpec,
    root: (u32, u16),
    id: (u32, u16),
)
    requires
        doc.objects.dom().finite(),
        document::page_root(doc) == Some(root),
    ensures
        pages::scan_of(doc).0.contains(id) <==> reachable(doc.objects, root, id) && pages::node_at(
            doc.objects,
            id,
        ) is Page,
{
    lemma_walk(doc.objects, seq![root], Set::empty());
    lemma_walked_from_root(doc.objects, root, id);
}

/// No page is listed twice, however often the page tree leads to it.
pub proof fn no_page_is_listed_twice(doc: DocSpec)
    requires
        doc.objects.dom().finite(),
    ensures
        pages::scan_of(doc).0.no_duplicates(),
{
    if let Some(root) = document::page_root(doc) {
        lemma_walk(doc.objects, seq![root], Set::empty());
    }
}

/// Every listed page resolves to a dictionary whose /Type is /Page.
pub proof fn a_listed_page_is_a_page(doc: DocSpec, i: int)
    requires
        doc.objects.dom().finite(),
        0 <= i < pages::scan_of(doc).0.len(),
    ensures
        document::dict_of(doc.objects, pages::scan_of(doc).0[i]) matches Ok(m) && object::name_entry(
            m,
            "Type".spec_bytes(),
        ) == Some("Page".spec_bytes()),
{
    let root = document::page_root(doc)->0;
    lemma_walk(doc.objects, seq![root], Set::empty());
    let id = pages::scan_of(doc).0[i];
    assert(pages::scan_of(doc).0.contains(id));
    assert(pages::node_at(doc.objects, id) is Page);
}

/// Nothing is counted as unresolved exactly when there is a page tree and every node of it can
/// be used, kids and all.
pub proof fn nothing_unresolved_means_nothing_lost(doc: DocSpec)
    requires
        doc.objects.dom().finite(),
    ensures
        pages::scan_of(doc).1 == 0 <==> (document::page_root(doc) matches Some(root) && forall|
            id: (u32, u16),
        | #[trigger] reachable(doc.objects, root, id) ==> usable(doc.objects, id)),
{
    if let Some(root) = document::page_root(doc) {
        let v = walked(doc.objects, seq![root], Set::empty());
        lemma_walk(doc.objects, seq![root], Set::empty());
        assert forall|id: (u32, u16)| #[trigger] v.contains(id) <==> reachable(
            doc.objects,
            root,
            id,
        ) by {
            lemma_walked_from_root(doc.objects, root, id);
        }
        if forall|id: (u32, u16)| #[trigger]
            reachable(doc.objects, root, id) ==> usable(doc.objects, id) {
            assert forall|id: (u32, u16)| #[trigger] v.contains(id) implies usable(
                doc.objects,
                id,
            ) by {
                assert(reachable(doc.objects, root, id));
            }
        }
        if pages::scan_of(doc).1 == 0 {
            assert forall|id: (u32, u16)| #[trigger] reachable(
                doc.objects,
                root,
                id,
            ) implies usable(doc.objects, id) by {
                assert(v.contains(id));
            }
        }
    }
}

/// Pages come in document order: all that is found below the first nodes comes before anything
/// found below the nodes after them. What cannot be used is counted on.
pub proof fn pages_come_in_document_order(
    objects: Map<(u32, u16), Obj>,
    first: Seq<(u32, u16)>,
    second: Seq<(u32, u16)>,
    visited: Set<(u32, u16)>,
)
    requires
        objects.dom().finite(),
    ensures
        pages::walk(objects, first + second, visited).0 == pages::walk(objects, first, visited).0
            + pages::walk(objects, second, walked(objects, first, visited)).0,
        pages::walk(objects, first + second, visited).1 == pages::walk(objects, first, visited).1
            + pages::walk(objects, second, walked(objects, first, visited)).1,
    decreases objects.dom().difference(visited).len(), first.len(),
{
    let all = first + second;
    if first.len() == 0 {
        assert(all =~= second);
        assert(Seq::<(u32, u16)>::empty() + pages::walk(objects, second, visited).0
            =~= pages::walk(objects, second, visited).0);
    } else {
        let id = first[0];
        assert(all[0] == id);
        assert(all.skip(1) =~= first.skip(1) + second);
        if visited.contains(id) {
            pages_come_in_document_order(objects, first.skip(1), second, visited);
        } else {
            pages::lemma_visit(objects, id, visited);
            match pages::node_at(objects, id) {
                Node::Tree(kids) => {
                    let k = pages::kid_ids(kids);
                    assert(k + all.skip(1) =~= (k + first.skip(1)) + second);
                    pages_come_in_document_order(
                        objects,
                        k + first.skip(1),
                        second,
                        visited.insert(id),
                    );
                },
                _ => {
                    pages_come_in_document_order(
                        objects,
                        first.skip(1),
                        second,
                        visited.insert(id),
                    );
                    let a = pages::walk(objects, first.skip(1), visited.insert(id)).0;
                    let b = pages::walk(objects, second, walked(objects, first, visited)).0;
                    assert(seq![id] + (a + b) =~= (seq![id] + a) + b);
                },
            }
        }
    }
}

/// Pages are numbered from one on, without gaps, in the order in which they are listed.
pub proof fn pages_are_numbered_from_one(list: Seq<(u32, u16)>)
    requires
        list.len() <= u32::MAX,
    ensures
        pages::numbered(list).len() == list.len(),
        pages::numbered(list).dom().finite(),
        forall|n: u32| #[trigger] pages::numbered(list).contains_key(n) <==> 1 <= n <= list.len(),
        forall|n: u32| 1 <= n <= list.len() ==> #[trigger] pages::numbered(list)[n] == list[n - 1],
    decreases list.len(),
{
    if list.len() > 0 {
        pages_are_numbered_from_one(list.drop_last());
        let n = pages::page_number(list.len() - 1);
        assert(n == list.len());
        let before = pages::numbered(list.drop_last());
        assert(!before.contains_key(n));
        assert(pages::numbered(list).dom() =~= before.dom().insert(n));
    }
}

/// How many of the first `n` kids are references.
pub open spec fn references(kids: Seq<Obj>, n: int) -> nat
    decreases n,
{
    if n <= 0 {
        0
    } else if kids[n - 1] is Reference {
        references(kids, n - 1) + 1
    } else {
        references(kids, n - 1)
    }
}

/// The references among the kids after the first one are those before it less.
proof fn lemma_references_skip(kids: Seq<Obj>, n: int)
    requires
        0 < n <= kids.len(),
    ensures
        references(kids, n) == references(kids.skip(1), n - 1) + (if kids[0] is Reference {
            1nat
        } else {
            0nat
        }),
    decreases n,
{
    if n > 1 {
        lemma_references_skip(kids, n - 1);
        assert(kids.skip(1)[n - 2] == kids[n - 1]);
    } else {
        assert(references(kids, 0) == 0);
        assert(references(kids.skip(1), 0) == 0);
    }
}

/// The kids that are walked are the references in `/Kids`, in the order of `/Kids`: the id of a
/// reference comes at the place that is the number of references before it, there are as many
/// ids as references, and all that is no reference is counted as lost.
pub proof fn kids_are_the_references_in_their_order(kids: Seq<Obj>)
    ensures
        pages::kid_ids(kids).len() == references(kids, kids.len() as int),
        pages::lost_kids(kids) == kids.len() - references(kids, kids.len() as int),
        forall|i: int|
            0 <= i < kids.len() && (#[trigger] kids[i]) is Reference ==> references(kids, i)
                < pages::kid_ids(kids).len() && kids[i] == Obj::Reference(
                pages::kid_ids(kids)[references(kids, i) as int].0,
                pages::kid_ids(kids)[references(kids, i) as int].1,
            ),
    decreases kids.len(),
{
    if kids.len() > 0 {
        let rest = kids.skip(1);
        kids_are_the_references_in_their_order(rest);
        lemma_references_skip(kids, kids.len() as int);
        assert forall|i: int| 0 <= i < kids.len() && (#[trigger] kids[i]) is Reference implies
            references(kids, i) < pages::kid_ids(kids).len() && kids[i] == Obj::Reference(
            pages::kid_ids(kids)[references(kids, i) as int].0,
            pages::kid_ids(kids)[references(kids, i) as int].1,
        ) by {
            if i > 0 {
                lemma_references_skip(kids, i);
                assert(rest[i - 1] == kids[i]);
            }
        }
    }
}

/// Where all kids are references, the ids that are walked are those of the kids, one for one.
pub proof fn kids_that_are_references_are_walked_one_for_one(kids: Seq<Obj>)
    requires
        forall|i: int| 0 <= i < kids.len() ==> (#[trigger] kids[i]) is Reference,
    ensures
        pages::kid_ids(kids).len() == kids.len(),
        pages::lost_kids(kids) == 0,
        forall|i: int|
            0 <= i < kids.len() ==> (#[trigger] kids[i]) == Obj::Reference(
                pages::kid_ids(kids)[i].0,
                pages::kid_ids(kids)[i].1,
            ),
{
    kids_are_the_references_in_their_order(kids);
    assert forall|i: int| 0 <= i <= kids.len() implies #[trigger] references(kids, i) == i by {
        lemma_all_references(kids, i);
    }
    assert forall|i: int| 0 <= i < kids.len() implies (#[trigger] kids[i]) == Obj::Reference(
        pages::kid_ids(kids)[i].0,
        pages::kid_ids(kids)[i].1,
    ) by {
        assert(references(kids, i) == i);
    }
}

proof fn lemma_all_references(kids: Seq<Obj>, n: int)
    requires
        0 <= n <= kids.len(),
        forall|i: int| 0 <= i < kids.len() ==> (#[trigger] kids[i]) is Reference,
    ensures
        references(kids, n) == n,
    decreases n,
{
    if n > 0 {
        lemma_all_references(kids, n - 1);
        assert(kids[n - 1] is Reference);
    }
}

/// Whether `objects` has a page at `id`: a dictionary, or a stream, whose type is `/Page`.
pub open spec fn is_page_object(objects: Map<(u32, u16), Obj>, id: (u32, u16)) -> bool {
    objects.contains_key(id) && match objects[id] {
        Obj::Dict(m) => m.contains_key("Type".spec_bytes()) && m["Type".spec_bytes()] == Obj::Name(
            "Page".spec_bytes(),
        ),
        Obj::Stream(m, _) => m.contains_key("Type".spec_bytes()) && m["Type".spec_bytes()]
            == Obj::Name("Page".spec_bytes()),
        _ => false,
    }
}

/// Whether `objects` has an inner node with these kids at `id`: a dictionary whose type is
/// `/Pages`, or that has no name for a type.
pub open spec fn is_inner_object(
    objects: Map<(u32, u16), Obj>,
    id: (u32, u16),
    kids: Seq<Obj>,
) -> bool {
    objects.contains_key(id) && match objects[id] {
        Obj::Dict(m) => (m.contains_key("Type".spec_bytes()) && m["Type".spec_bytes()] is Name
            ==> m["Type".spec_bytes()] == Obj::Name("Pages".spec_bytes())) && m.contains_key("Kids".spec_bytes())
            && m["Kids".spec_bytes()] == Obj::Array(kids),
        _ => false,
    }
}

proof fn lemma_type_names()
    ensures
        "Page".spec_bytes() != "Pages".spec_bytes(),
{
    reveal_strlit("Page");
    reveal_strlit("Pages");
    assert("Page".is_ascii() && "Pages".is_ascii());
    is_ascii_spec_bytes("Page");
    is_ascii_spec_bytes("Pages");
    assert("Page".spec_bytes().len() != "Pages".spec_bytes().len());
}

proof fn lemma_nodes(objects: Map<(u32, u16), Obj>, id: (u32, u16), kids: Seq<Obj>)
    ensures
        is_page_object(objects, id) ==> pages::node_at(objects, id) is Page,
        is_inner_object(objects, id, kids) ==> pages::node_at(objects, id) == Node::Tree(kids),
        !objects.contains_key(id) ==> pages::node_at(objects, id) is Unusable,
{
    lemma_type_names();
    if objects.contains_key(id) {
        reveal_with_fuel(document::resolved, 2);
    }
}

/// What one node adds to a walk: a page lists itself; an inner node stands for its kids and
/// counts those that are no references; an object that is missing, or that has another type,
/// counts as one node that cannot be used.
pub proof fn each_node_is_walked_as_what_it_is(
    objects: Map<(u32, u16), Obj>,
    id: (u32, u16),
    kids: Seq<Obj>,
    other: Seq<u8>,
    visited: Set<(u32, u16)>,
)
    requires
        objects.dom().finite(),
        !visited.contains(id),
    ensures
        is_page_object(objects, id) ==> pages::walk(objects, seq![id], visited) == (seq![id], 0nat),
        is_inner_object(objects, id, kids) ==> pages::walk(objects, seq![id], visited).0
            == pages::walk(objects, pages::kid_ids(kids), visited.insert(id)).0 && pages::walk(
            objects,
            seq![id],
            visited,
        ).1 == pages::walk(objects, pages::kid_ids(kids), visited.insert(id)).1 + kids.len()
            - references(kids, kids.len() as int),
        !objects.contains_key(id) ==> pages::walk(objects, seq![id], visited) == (
            Seq::<(u32, u16)>::empty(),
            1nat,
        ),
        objects.contains_key(id) && (objects[id] matches Obj::Dict(m) && m.contains_key(
            "Type".spec_bytes(),
        ) && m["Type".spec_bytes()] == Obj::Name(other)) && other != "Page".spec_bytes() && other
            != "Pages".spec_bytes() ==> pages::walk(objects, seq![id], visited) == (
            Seq::<(u32, u16)>::empty(),
            1nat,
        ),
        pages::walk(objects, seq![id], visited.insert(id)) == (Seq::<(u32, u16)>::empty(), 0nat),
{
    lemma_nodes(objects, id, kids);
    kids_are_the_references_in_their_order(kids);
    let none = Seq::<(u32, u16)>::empty();
    assert(seq![id].skip(1) =~= none);
    assert(pages::kid_ids(kids) + none =~= pages::kid_ids(kids));
    assert(seq![id] + none =~= seq![id]);
    assert(pages::walk(objects, none, visited.insert(id)) == (none, 0nat));
    if objects.contains_key(id) {
        reveal_with_fuel(document::resolved, 2);
    }
}

/// A walk over pages, each a different one, lists them as they come.
proof fn lemma_walk_pages(
    objects: Map<(u32, u16), Obj>,
    ids: Seq<(u32, u16)>,
    visited: Set<(u32, u16)>,
)
    requires
        objects.dom().finite(),
        ids.no_duplicates(),
        forall|i: int|
            0 <= i < ids.len() ==> is_page_object(objects, #[trigger] ids[i]) && !visited.contains(
                ids[i],
            ),
    ensures
        pages::walk(objects, ids, visited) == (ids, 0nat),
    decreases ids.len(),
{
    if ids.len() > 0 {
        let id = ids[0];
        let rest = ids.skip(1);
        assert(is_page_object(objects, id));
        lemma_nodes(objects, id, Seq::empty());
        assert forall|i: int| 0 <= i < rest.len() implies is_page_object(objects, #[trigger] rest[i])
            && !visited.insert(id).contains(rest[i]) by {
            assert(rest[i] == ids[i + 1]);
        }
        lemma_walk_pages(objects, rest, visited.insert(id));
        assert(seq![id] + rest =~= ids);
    } else {
        assert(ids =~= Seq::<(u32, u16)>::empty());
    }
}

/// A document whose catalog leads to a root with nothing but pages below it, each a different
/// one, has those pages in the order of `/Kids`: page number `i + 1` is the id in `kids[i]`, and
/// nothing is counted as unresolved.
pub proof fn pages_are_numbered_in_the_order_of_kids(
    doc: DocSpec,
    catalog: (u32, u16),
    entries: Map<Seq<u8>, Obj>,
    root: (u32, u16),
    kids: Seq<Obj>,
)
    requires
        doc.objects.dom().finite(),
        doc.trailer.contains_key("Root".spec_bytes()),
        doc.trailer["Root".spec_bytes()] == Obj::Reference(catalog.0, catalog.1),
        doc.objects.contains_key(catalog),
        doc.objects[catalog] == Obj::Dict(entries),
        entries.contains_key("Pages".spec_bytes()),
        entries["Pages".spec_bytes()] == Obj::Reference(root.0, root.1),
        is_inner_object(doc.objects, root, kids),
        kids.no_duplicates(),
        kids.len() <= u32::MAX,
        forall|i: int|
            0 <= i < kids.len() ==> ((#[trigger] kids[i]) matches Obj::Reference(n, g)
                && is_page_object(doc.objects, (n, g)) && (n, g) != root),
    ensures
        pages::scan_of(doc).0.len() == kids.len(),
        pages::scan_of(doc).1 == 0,
        forall|i: int|
            0 <= i < kids.len() ==> pages::numbered(pages::scan_of(doc).0).contains_key(
                (i + 1) as u32,
            ) && (#[trigger] kids[i]) == Obj::Reference(
                pages::numbered(pages::scan_of(doc).0)[(i + 1) as u32].0,
                pages::numbered(pages::scan_of(doc).0)[(i + 1) as u32].1,
            ),
{
    assert(document::page_root(doc) == Some(root)) by {
        reveal_with_fuel(document::resolved, 3);
    }
    let ids = pages::kid_ids(kids);
    kids_that_are_references_are_walked_one_for_one(kids);
    each_node_is_walked_as_what_it_is(doc.objects, root, kids, Seq::empty(), Set::empty());
    lemma_all_references(kids, kids.len() as int);
    assert forall|i: int| 0 <= i < ids.len() implies is_page_object(
        doc.objects,
        #[trigger] ids[i],
    ) && !Set::<(u32, u16)>::empty().insert(root).contains(ids[i]) by {
        assert(kids[i] is Reference);
    }
    assert forall|i: int, j: int| 0 <= i < ids.len() && 0 <= j < ids.len() && i != j implies ids[i]
        != ids[j] by {
        assert(kids[i] != kids[j]);
    }
    lemma_walk_pages(doc.objects, ids, Set::empty().insert(root));
    pages_are_numbered_from_one(ids);
    assert forall|i: int|
        0 <= i < kids.len() implies pages::numbered(pages::scan_of(doc).0).contains_key(
        (i + 1) as u32,
    ) && (#[trigger] kids[i]) == Obj::Reference(
        pages::numbered(pages::scan_of(doc).0)[(i + 1) as u32].0,
        pages::numbered(pages::scan_of(doc).0)[(i + 1) as u32].1,
    ) by {
        let n = (i + 1) as u32;
        assert(1 <= n <= ids.len());
        assert(pages::numbered(ids)[n] == ids[n - 1]);
    }
}

} // verus!

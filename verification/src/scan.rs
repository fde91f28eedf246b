//! Directory scanner: turns a modelled backing directory into the fully
//! materialized, deterministically ordered node tree.
//!
//! Reserved-prefixed entries are excluded at every depth. Sibling order
//! puts folders before files and canvases, then sorts each bucket
//! case-sensitively by name.
use crate::fsmodel::FsEntry;
use crate::fsmodel::FsEntryV;
use crate::fsmodel::FsNode;
use crate::fsmodel::FsNodeV;
use crate::fsmodel::entries_view;
use crate::fsmodel::entry_view;
use crate::fsmodel::lemma_entries_view;
use crate::node::Node;
use crate::node::NodeKind;
use crate::node::NodeV;
use crate::node::clone_node;
use crate::node::clone_opt_string;
use crate::node::lemma_nodes_v;
use crate::node::lemma_nodes_v_push;
use crate::node::node_v;
use crate::node::nodes_v;
use crate::node::opt_view;
use crate::paths::child_rel;
use crate::paths::make_child_rel;
use crate::text::concat2;
use crate::text::has_suffix;
use crate::text::hidden_name;
use crate::text::is_hidden_name;
use crate::text::lemma_lex_le_total;
use crate::text::lemma_lex_le_transitive;
use crate::text::lex_le;
use crate::text::str_has_suffix;
use crate::text::str_lex_le;
use vstd::prelude::*;

verus! {

/// The distinguished extension that marks a canvas file.
pub open spec fn canvas_suffix() -> Seq<char> {
    seq!['.', 'c', 'a', 'n', 'v', 'a', 's']
}

/// The kind a scanned entry gets: directories are folders, files with
/// the distinguished extension are canvases, all other files are files.
pub open spec fn entry_kind(e: FsEntryV) -> NodeKind {
    match e.node {
        FsNodeV::Dir { .. } => NodeKind::Folder,
        FsNodeV::File { .. } => if has_suffix(e.name, canvas_suffix()) {
            NodeKind::Canvas
        } else {
            NodeKind::File
        },
    }
}

/// Sibling order: every folder before every non-folder; within the same
/// bucket, case-sensitive lexicographic order by name.
pub open spec fn node_le(a: NodeV, b: NodeV) -> bool {
    if a.kind is Folder && !(b.kind is Folder) {
        true
    } else if !(a.kind is Folder) && b.kind is Folder {
        false
    } else {
        lex_le(a.name, b.name)
    }
}

/// Any two nodes are comparable.
pub proof fn lemma_node_le_total(a: NodeV, b: NodeV)
    ensures
        node_le(a, b) || node_le(b, a),
{
    lemma_lex_le_total(a.name, b.name);
}

/// The sibling order is transitive.
pub proof fn lemma_node_le_trans(a: NodeV, b: NodeV, c: NodeV)
    requires
        node_le(a, b),
        node_le(b, c),
    ensures
        node_le(a, c),
{
    if (a.kind is Folder <==> b.kind is Folder) && (b.kind is Folder <==> c.kind is Folder) {
        lemma_lex_le_transitive(a.name, b.name, c.name);
    }
}

/// Insertion into a sorted sequence, before the first element the new
/// node sorts at or before.
pub open spec fn insert_sorted(x: NodeV, s: Seq<NodeV>) -> Seq<NodeV>
    decreases s.len(),
{
    if s.len() == 0 {
        seq![x]
    } else if node_le(x, s[0]) {
        seq![x] + s
    } else {
        seq![s[0]] + insert_sorted(x, s.drop_first())
    }
}

/// Insertion sort of a node sequence under the sibling order.
pub open spec fn sort_nodes(s: Seq<NodeV>) -> Seq<NodeV>
    decreases s.len(),
{
    if s.len() == 0 {
        Seq::empty()
    } else {
        insert_sorted(s.last(), sort_nodes(s.drop_last()))
    }
}

/// Non-decreasing under the sibling order.
pub open spec fn nodes_sorted(s: Seq<NodeV>) -> bool {
    forall|i: int, j: int| 0 <= i < j < s.len() ==> node_le(s[i], s[j])
}

/// Insertion keeps every element-wise property that the inserted node
/// also has, and grows the length by one.
pub proof fn lemma_insert_sorted_all(f: spec_fn(NodeV) -> bool, x: NodeV, s: Seq<NodeV>)
    requires
        f(x),
        forall|i: int| 0 <= i < s.len() ==> f(#[trigger] s[i]),
    ensures
        insert_sorted(x, s).len() == s.len() + 1,
        forall|i: int| 0 <= i < insert_sorted(x, s).len() ==> f(#[trigger] insert_sorted(x, s)[i]),
    decreases s.len(),
{
    if s.len() == 0 {
    } else if node_le(x, s[0]) {
    } else {
        assert(forall|i: int| 0 <= i < s.drop_first().len() ==> f(#[trigger] s.drop_first()[i]));
        lemma_insert_sorted_all(f, x, s.drop_first());
    }
}

/// Sorting keeps every element-wise property, and the length.
pub proof fn lemma_sort_nodes_all(f: spec_fn(NodeV) -> bool, s: Seq<NodeV>)
    requires
        forall|i: int| 0 <= i < s.len() ==> f(#[trigger] s[i]),
    ensures
        sort_nodes(s).len() == s.len(),
        forall|i: int| 0 <= i < sort_nodes(s).len() ==> f(#[trigger] sort_nodes(s)[i]),
    decreases s.len(),
{
    if s.len() > 0 {
        assert(forall|i: int| 0 <= i < s.drop_last().len() ==> f(#[trigger] s.drop_last()[i]));
        lemma_sort_nodes_all(f, s.drop_last());
        assert(f(s.last()));
        lemma_insert_sorted_all(f, s.last(), sort_nodes(s.drop_last()));
    }
}

/// Insertion into a sorted sequence yields a sorted sequence.
pub proof fn lemma_insert_sorted_sorted(x: NodeV, s: Seq<NodeV>)
    requires
        nodes_sorted(s),
    ensures
        nodes_sorted(insert_sorted(x, s)),
    decreases s.len(),
{
    if s.len() == 0 {
    } else if node_le(x, s[0]) {
        let out = seq![x] + s;
        assert forall|i: int, j: int| 0 <= i < j < out.len() implies node_le(out[i], out[j]) by {
            if i == 0 {
                if j >= 2 {
                    lemma_node_le_trans(x, s[0], s[j - 1]);
                }
            } else {
                assert(out[i] == s[i - 1] && out[j] == s[j - 1]);
            }
        }
    } else {
        lemma_node_le_total(x, s[0]);
        assert(nodes_sorted(s.drop_first()));
        lemma_insert_sorted_sorted(x, s.drop_first());
        let tail = insert_sorted(x, s.drop_first());
        assert forall|i: int| 0 <= i < tail.len() implies node_le(s[0], #[trigger] tail[i]) by {
            lemma_insert_sorted_all(
                |y: NodeV| node_le(s[0], y),
                x,
                s.drop_first(),
            );
        }
        let out = seq![s[0]] + tail;
        assert forall|i: int, j: int| 0 <= i < j < out.len() implies node_le(out[i], out[j]) by {
            if i == 0 {
                assert(out[j] == tail[j - 1]);
            } else {
                assert(out[i] == tail[i - 1] && out[j] == tail[j - 1]);
            }
        }
    }
}

/// The result of sorting is sorted.
pub proof fn lemma_sort_nodes_sorted(s: Seq<NodeV>)
    ensures
        nodes_sorted(sort_nodes(s)),
    decreases s.len(),
{
    if s.len() > 0 {
        lemma_sort_nodes_sorted(s.drop_last());
        lemma_insert_sorted_sorted(s.last(), sort_nodes(s.drop_last()));
    }
}

/// Where the new node lands: before the first element it sorts at or
/// before.
pub proof fn lemma_insert_sorted_at(x: NodeV, s: Seq<NodeV>, pos: int)
    requires
        0 <= pos <= s.len(),
        forall|i: int| 0 <= i < pos ==> !node_le(x, #[trigger] s[i]),
        pos < s.len() ==> node_le(x, s[pos]),
    ensures
        insert_sorted(x, s) == s.insert(pos, x),
    decreases s.len(),
{
    if s.len() == 0 {
        assert(s.insert(0, x) =~= seq![x]);
    } else if node_le(x, s[0]) {
        assert(pos == 0);
        assert(seq![x] + s =~= s.insert(0, x));
    } else {
        assert(pos > 0);
        assert forall|i: int| 0 <= i < pos - 1 implies !node_le(x, #[trigger] s.drop_first()[i]) by {
            assert(s.drop_first()[i] == s[i + 1]);
        }
        assert(pos - 1 < s.drop_first().len() ==> node_le(x, s.drop_first()[pos - 1]));
        lemma_insert_sorted_at(x, s.drop_first(), pos - 1);
        assert(seq![s[0]] + s.drop_first().insert(pos - 1, x) =~= s.insert(pos, x));
    }
}

/// One scanned node: its identifier is the prefix followed by its
/// relative path, its children are the recursively scanned and sorted
/// entries of its directory, and no content is loaded.
pub open spec fn scan_entry(
    e: FsEntryV,
    id_prefix: Seq<char>,
    rel: Seq<char>,
    parent: Option<Seq<char>>,
) -> NodeV
    decreases e,
{
    let my_rel = child_rel(rel, e.name);
    let id = id_prefix + my_rel;
    NodeV {
        id: id,
        name: e.name,
        kind: entry_kind(e),
        children: match e.node {
            FsNodeV::Dir { entries } => Option::Some(
                sort_nodes(scan_entries(entries, id_prefix, my_rel, Option::Some(id))),
            ),
            FsNodeV::File { .. } => Option::None,
        },
        content: Option::None,
        parent_id: parent,
    }
}

/// The scanned nodes of a directory body in entry order, reserved names
/// skipped, children sorted.
pub open spec fn scan_entries(
    es: Seq<FsEntryV>,
    id_prefix: Seq<char>,
    rel: Seq<char>,
    parent: Option<Seq<char>>,
) -> Seq<NodeV>
    decreases es,
{
    if es.len() == 0 {
        Seq::empty()
    } else {
        let rest = scan_entries(es.drop_last(), id_prefix, rel, parent);
        if hidden_name(es.last().name) {
            rest
        } else {
            rest.push(scan_entry(es.last(), id_prefix, rel, parent))
        }
    }
}

/// The full scan of a directory body: recursively scanned, sorted at
/// every level.
pub open spec fn spec_scan(
    es: Seq<FsEntryV>,
    id_prefix: Seq<char>,
    rel: Seq<char>,
    parent: Option<Seq<char>>,
) -> Seq<NodeV> {
    sort_nodes(scan_entries(es, id_prefix, rel, parent))
}

/// Whether `a` sorts at or before `b` among siblings.
pub fn node_le_exec(a: &Node, b: &Node) -> (r: bool)
    ensures
        r == node_le(node_v(*a), node_v(*b)),
{
    let af = match a.kind {
        NodeKind::Folder => true,
        _ => false,
    };
    let bf = match b.kind {
        NodeKind::Folder => true,
        _ => false,
    };
    if af && !bf {
        true
    } else if !af && bf {
        false
    } else {
        str_lex_le(a.name.as_str(), b.name.as_str())
    }
}

/// The view of an inserted node.
proof fn lemma_nodes_v_insert(a: Seq<Node>, b: Seq<Node>, i: int, x: Node)
    requires
        0 <= i <= a.len(),
        b =~= a.insert(i, x),
    ensures
        nodes_v(b) == nodes_v(a).insert(i, node_v(x)),
{
    lemma_nodes_v(a);
    lemma_nodes_v(b);
    assert forall|k: int| 0 <= k < b.len() implies nodes_v(b)[k] == nodes_v(a).insert(
        i,
        node_v(x),
    )[k] by {
        if k < i {
            assert(b[k] == a[k]);
        } else if k == i {
            assert(b[k] == x);
        } else {
            assert(b[k] == a[k - 1]);
        }
    }
    assert(nodes_v(b) =~= nodes_v(a).insert(i, node_v(x)));
}

/// Inserts a node into an already sorted sequence at its place.
fn insert_node_sorted(out: Vec<Node>, x: Node) -> (r: Vec<Node>)
    ensures
        nodes_v(r@) == insert_sorted(node_v(x), nodes_v(out@)),
{
    let ghost out0 = out@;
    proof {
        lemma_nodes_v(out0);
    }
    let n = out.len();
    let mut pos: usize = 0;
    loop
        invariant_except_break
            out@ == out0,
            n == out0.len(),
            nodes_v(out0).len() == n,
            pos <= n,
            forall|i: int| 0 <= i < pos ==> !node_le(node_v(x), nodes_v(out0)[i]),
        ensures
            out@ == out0,
            pos <= n,
            forall|i: int| 0 <= i < pos ==> !node_le(node_v(x), nodes_v(out0)[i]),
            pos < n ==> node_le(node_v(x), nodes_v(out0)[pos as int]),
        decreases n - pos,
    {
        if pos == n {
            break ;
        }
        proof {
            lemma_nodes_v(out0);
        }
        if node_le_exec(&x, &out[pos]) {
            break ;
        }
        pos = pos + 1;
    }
    let mut out = out;
    out.insert(pos, x);
    proof {
        lemma_insert_sorted_at(node_v(x), nodes_v(out0), pos as int);
        lemma_nodes_v_insert(out0, out@, pos as int, x);
    }
    out
}

/// Sorts nodes under the sibling order by insertion.
#[verifier::loop_isolation(false)]
fn sort_nodes_exec(input: &Vec<Node>) -> (r: Vec<Node>)
    ensures
        nodes_v(r@) == sort_nodes(nodes_v(input@)),
{
    proof {
        lemma_nodes_v(input@);
    }
    let mut out: Vec<Node> = Vec::new();
    let mut k: usize = 0;
    while k < input.len()
        invariant
            k <= input@.len(),
            nodes_v(out@) == sort_nodes(nodes_v(input@).take(k as int)),
        decreases input@.len() - k,
    {
        let x = clone_node(&input[k]);
        out = insert_node_sorted(out, x);
        proof {
            assert(nodes_v(input@).take(k + 1 as int).drop_last() =~= nodes_v(input@).take(
                k as int,
            ));
            assert(nodes_v(input@).take(k + 1 as int).last() == node_v(x));
        }
        k = k + 1;
    }
    proof {
        assert(nodes_v(input@).take(input@.len() as int) =~= nodes_v(input@));
    }
    out
}

/// Scans a modelled directory into the ordered node tree. Identifiers
/// are `id_prefix` followed by the entry's relative path from the scan
/// root; `rel` is the relative path of the directory being scanned and
/// `parent_id` the identifier of its node, absent at the root.
#[verifier::loop_isolation(false)]
pub fn scan_directory(
    entries: &Vec<FsEntry>,
    id_prefix: &str,
    rel: &str,
    parent_id: &Option<String>,
) -> (r: Vec<Node>)
    ensures
        nodes_v(r@) == spec_scan(entries_view(entries@), id_prefix@, rel@, opt_view(*parent_id)),
    decreases entries@,
{
    let ghost evs = entries_view(entries@);
    proof {
        lemma_entries_view(entries@);
    }
    let mut raw: Vec<Node> = Vec::new();
    let mut k: usize = 0;
    while k < entries.len()
        invariant
            k <= entries@.len(),
            nodes_v(raw@) == scan_entries(
                evs.take(k as int),
                id_prefix@,
                rel@,
                opt_view(*parent_id),
            ),
        decreases entries@.len() - k,
    {
        let e = &entries[k];
        proof {
            assert(entry_view(*e) == evs[k as int]);
            assert(evs.take(k + 1 as int).drop_last() =~= evs.take(k as int));
            assert(evs.take(k + 1 as int).last() == evs[k as int]);
        }
        if !is_hidden_name(e.name.as_str()) {
            let my_rel = make_child_rel(rel, e.name.as_str());
            let id = concat2(id_prefix, my_rel.as_str());
            let (kind, children) = match &e.node {
                FsNode::Dir(ces) => {
                    proof {
                        assert(decreases_to!(entries@ => entries@[k as int]));
                        assert(decreases_to!(entries@[k as int] => entries@[k as int].node));
                        assert(decreases_to!(entries@[k as int].node => entries@[k as int].node->Dir_0));
                        assert(decreases_to!(entries@[k as int].node->Dir_0 => entries@[k as int].node->Dir_0@));
                    }
                    let child_parent = Option::Some(id.clone());
                    let sub = scan_directory(ces, id_prefix, my_rel.as_str(), &child_parent);
                    (NodeKind::Folder, Option::Some(sub))
                },
                FsNode::File(_) => {
                    proof {
                        reveal_strlit(".canvas");
                        assert(".canvas"@ =~= canvas_suffix());
                    }
                    if str_has_suffix(e.name.as_str(), ".canvas") {
                        (NodeKind::Canvas, Option::None)
                    } else {
                        (NodeKind::File, Option::None)
                    }
                },
            };
            let node = Node {
                id,
                name: e.name.clone(),
                kind,
                children,
                content: Option::None,
                parent_id: clone_opt_string(parent_id),
            };
            let ghost raw0 = raw@;
            raw.push(node);
            proof {
                lemma_nodes_v_push(raw0, raw@, node);
                assert(node_v(node) =~= scan_entry(
                    evs[k as int],
                    id_prefix@,
                    rel@,
                    opt_view(*parent_id),
                ));
            }
        }
        k = k + 1;
    }
    proof {
        assert(evs.take(entries@.len() as int) =~= evs);
    }
    sort_nodes_exec(&raw)
}


/// Every children sequence below `n` is sorted.
pub open spec fn node_tree_ordered(n: NodeV) -> bool
    decreases n,
{
    match n.children {
        Option::Some(cs) => nodes_sorted(cs) && all_trees_ordered(cs),
        Option::None => true,
    }
}

/// Every node of the sequence has ordered children, recursively.
pub open spec fn all_trees_ordered(ns: Seq<NodeV>) -> bool
    decreases ns,
{
    if ns.len() == 0 {
        true
    } else {
        all_trees_ordered(ns.drop_last()) && node_tree_ordered(ns.last())
    }
}

/// `all_trees_ordered` is the element-wise conjunction.
pub proof fn lemma_all_trees_ordered(ns: Seq<NodeV>)
    ensures
        all_trees_ordered(ns) <==> (forall|i: int|
            0 <= i < ns.len() ==> node_tree_ordered(#[trigger] ns[i])),
    decreases ns,
{
    if ns.len() > 0 {
        lemma_all_trees_ordered(ns.drop_last());
        assert(forall|i: int| 0 <= i < ns.drop_last().len() ==> #[trigger] ns.drop_last()[i]
            == ns[i]);
        if forall|i: int| 0 <= i < ns.len() ==> node_tree_ordered(#[trigger] ns[i]) {
            assert(forall|i: int|
                0 <= i < ns.drop_last().len() ==> node_tree_ordered(#[trigger] ns.drop_last()[i]));
            assert(node_tree_ordered(ns.last()));
        }
        if all_trees_ordered(ns) {
            assert forall|i: int| 0 <= i < ns.len() implies node_tree_ordered(#[trigger] ns[i]) by {
                if i < ns.len() - 1 {
                    assert(node_tree_ordered(ns.drop_last()[i]));
                } else {
                    assert(ns[i] == ns.last());
                }
            }
        }
    }
}

/// Neither `n` nor anything below it carries a reserved-prefixed name.
pub open spec fn node_tree_visible(n: NodeV) -> bool
    decreases n,
{
    !hidden_name(n.name) && match n.children {
        Option::Some(cs) => all_trees_visible(cs),
        Option::None => true,
    }
}

/// Every node of the sequence is visible, recursively.
pub open spec fn all_trees_visible(ns: Seq<NodeV>) -> bool
    decreases ns,
{
    if ns.len() == 0 {
        true
    } else {
        all_trees_visible(ns.drop_last()) && node_tree_visible(ns.last())
    }
}

/// `all_trees_visible` is the element-wise conjunction.
pub proof fn lemma_all_trees_visible(ns: Seq<NodeV>)
    ensures
        all_trees_visible(ns) <==> (forall|i: int|
            0 <= i < ns.len() ==> node_tree_visible(#[trigger] ns[i])),
    decreases ns,
{
    if ns.len() > 0 {
        lemma_all_trees_visible(ns.drop_last());
        assert(forall|i: int| 0 <= i < ns.drop_last().len() ==> #[trigger] ns.drop_last()[i]
            == ns[i]);
        if forall|i: int| 0 <= i < ns.len() ==> node_tree_visible(#[trigger] ns[i]) {
            assert(forall|i: int|
                0 <= i < ns.drop_last().len() ==> node_tree_visible(#[trigger] ns.drop_last()[i]));
            assert(node_tree_visible(ns.last()));
        }
        if all_trees_visible(ns) {
            assert forall|i: int| 0 <= i < ns.len() implies node_tree_visible(#[trigger] ns[i]) by {
                if i < ns.len() - 1 {
                    assert(node_tree_visible(ns.drop_last()[i]));
                } else {
                    assert(ns[i] == ns.last());
                }
            }
        }
    }
}

/// One scanned node has sorted children at every depth.
pub proof fn lemma_scan_entry_ordered(
    e: FsEntryV,
    id_prefix: Seq<char>,
    rel: Seq<char>,
    parent: Option<Seq<char>>,
)
    ensures
        node_tree_ordered(scan_entry(e, id_prefix, rel, parent)),
    decreases e,
{
    match e.node {
        FsNodeV::Dir { entries } => {
            let my_rel = child_rel(rel, e.name);
            let id = id_prefix + my_rel;
            let raw = scan_entries(entries, id_prefix, my_rel, Option::Some(id));
            lemma_scan_entries_ordered(entries, id_prefix, my_rel, Option::Some(id));
            lemma_sort_nodes_sorted(raw);
            lemma_sort_nodes_all(|y: NodeV| node_tree_ordered(y), raw);
            lemma_all_trees_ordered(sort_nodes(raw));
        },
        FsNodeV::File { .. } => {},
    }
}

/// Every node scanned from a directory body has sorted children at
/// every depth.
pub proof fn lemma_scan_entries_ordered(
    es: Seq<FsEntryV>,
    id_prefix: Seq<char>,
    rel: Seq<char>,
    parent: Option<Seq<char>>,
)
    ensures
        forall|i: int|
            0 <= i < scan_entries(es, id_prefix, rel, parent).len() ==> node_tree_ordered(
                #[trigger] scan_entries(es, id_prefix, rel, parent)[i],
            ),
    decreases es,
{
    if es.len() > 0 {
        lemma_scan_entries_ordered(es.drop_last(), id_prefix, rel, parent);
        let rest = scan_entries(es.drop_last(), id_prefix, rel, parent);
        let out = scan_entries(es, id_prefix, rel, parent);
        if !hidden_name(es.last().name) {
            lemma_scan_entry_ordered(es.last(), id_prefix, rel, parent);
            assert forall|i: int| 0 <= i < out.len() implies node_tree_ordered(
                #[trigger] out[i],
            ) by {
                if i < rest.len() {
                    assert(out[i] == rest[i]);
                } else {
                    assert(out[i] == scan_entry(es.last(), id_prefix, rel, parent));
                }
            }
        }
    }
}

/// The scanner's output ordering: every sibling sequence, at every
/// depth, puts folders first and sorts each bucket by name.
pub proof fn lemma_scan_ordered(
    es: Seq<FsEntryV>,
    id_prefix: Seq<char>,
    rel: Seq<char>,
    parent: Option<Seq<char>>,
)
    ensures
        nodes_sorted(spec_scan(es, id_prefix, rel, parent)),
        all_trees_ordered(spec_scan(es, id_prefix, rel, parent)),
{
    let raw = scan_entries(es, id_prefix, rel, parent);
    lemma_sort_nodes_sorted(raw);
    lemma_scan_entries_ordered(es, id_prefix, rel, parent);
    lemma_sort_nodes_all(|y: NodeV| node_tree_ordered(y), raw);
    lemma_all_trees_ordered(sort_nodes(raw));
}

/// One scanned node shows no reserved-prefixed name at any depth.
pub proof fn lemma_scan_entry_visible(
    e: FsEntryV,
    id_prefix: Seq<char>,
    rel: Seq<char>,
    parent: Option<Seq<char>>,
)
    requires
        !hidden_name(e.name),
    ensures
        node_tree_visible(scan_entry(e, id_prefix, rel, parent)),
    decreases e,
{
    match e.node {
        FsNodeV::Dir { entries } => {
            let my_rel = child_rel(rel, e.name);
            let id = id_prefix + my_rel;
            let raw = scan_entries(entries, id_prefix, my_rel, Option::Some(id));
            lemma_scan_entries_visible(entries, id_prefix, my_rel, Option::Some(id));
            lemma_sort_nodes_all(|y: NodeV| node_tree_visible(y), raw);
            lemma_all_trees_visible(sort_nodes(raw));
        },
        FsNodeV::File { .. } => {},
    }
}

/// Every node scanned from a directory body is visible at every depth.
pub proof fn lemma_scan_entries_visible(
    es: Seq<FsEntryV>,
    id_prefix: Seq<char>,
    rel: Seq<char>,
    parent: Option<Seq<char>>,
)
    ensures
        forall|i: int|
            0 <= i < scan_entries(es, id_prefix, rel, parent).len() ==> node_tree_visible(
                #[trigger] scan_entries(es, id_prefix, rel, parent)[i],
            ),
    decreases es,
{
    if es.len() > 0 {
        lemma_scan_entries_visible(es.drop_last(), id_prefix, rel, parent);
        let rest = scan_entries(es.drop_last(), id_prefix, rel, parent);
        let out = scan_entries(es, id_prefix, rel, parent);
        if !hidden_name(es.last().name) {
            lemma_scan_entry_visible(es.last(), id_prefix, rel, parent);
            assert forall|i: int| 0 <= i < out.len() implies node_tree_visible(
                #[trigger] out[i],
            ) by {
                if i < rest.len() {
                    assert(out[i] == rest[i]);
                } else {
                    assert(out[i] == scan_entry(es.last(), id_prefix, rel, parent));
                }
            }
        }
    }
}

/// Reserved-prefixed entries never appear in scan output, at any
/// nesting depth.
pub proof fn lemma_scan_visible(
    es: Seq<FsEntryV>,
    id_prefix: Seq<char>,
    rel: Seq<char>,
    parent: Option<Seq<char>>,
)
    ensures
        all_trees_visible(spec_scan(es, id_prefix, rel, parent)),
{
    let raw = scan_entries(es, id_prefix, rel, parent);
    lemma_scan_entries_visible(es, id_prefix, rel, parent);
    lemma_sort_nodes_all(|y: NodeV| node_tree_visible(y), raw);
    lemma_all_trees_visible(sort_nodes(raw));
}


/// `id` addresses `t` itself or something nested below it: it is `t`,
/// or it extends `t` past a separator.
pub open spec fn id_under(id: Seq<char>, t: Seq<char>) -> bool {
    id == t || (id.len() > t.len() && id.subrange(0, t.len() as int + 1) == t.push('/'))
}

/// Being nested below is transitive across bases.
pub proof fn lemma_id_under_trans(x: Seq<char>, b2: Seq<char>, b: Seq<char>)
    requires
        id_under(x, b2),
        id_under(b2, b),
    ensures
        id_under(x, b),
{
    if x != b2 && b2 != b {
        assert(x.len() > b2.len());
        assert(b2.len() > b.len());
        assert forall|q: int| 0 <= q < b.len() + 1 implies x.subrange(0, b.len() as int + 1)[q] == b.push(
            '/',
        )[q] by {
            assert(x.subrange(0, b.len() as int + 1)[q] == x[q]);
            assert(x.subrange(0, b2.len() as int + 1)[q] == x[q]);
            assert(x.subrange(0, b2.len() as int + 1)[q] == b2.push('/')[q]);
            assert(q < b2.len());
            assert(b2.push('/')[q] == b2[q]);
            assert(b2.subrange(0, b.len() as int + 1)[q] == b2[q]);
            assert(b2.subrange(0, b.len() as int + 1)[q] == b.push('/')[q]);
        }
        assert(x.subrange(0, b.len() as int + 1) =~= b.push('/'));
    } else if x != b2 && b2 == b {
    } else {
    }
}

/// Distinct sibling names open disjoint identifier cones: nothing below
/// one sibling's identifier lies at or below the other's.
pub proof fn lemma_cone_separation(c: Seq<char>, n1: Seq<char>, n2: Seq<char>, x: Seq<char>)
    requires
        crate::paths::seg_ok(n1),
        crate::paths::seg_ok(n2),
        n1 != n2,
        id_under(x, c + n1),
    ensures
        !id_under(x, c + n2),
{
    let b1 = c + n1;
    let b2 = c + n2;
    assert(b1.len() == c.len() + n1.len());
    assert(b2.len() == c.len() + n2.len());
    if id_under(x, b2) {
        if x == b1 && x == b2 {
            assert(n1.len() == n2.len());
            assert forall|q: int| 0 <= q < n1.len() implies n1[q] == n2[q] by {
                assert(b1[c.len() as int + q] == n1[q]);
                assert(b2[c.len() as int + q] == n2[q]);
            }
            assert(n1 =~= n2);
        } else if x == b1 {
            assert(x.len() == c.len() + n1.len());
            assert(x.len() > b2.len());
            assert(n1.len() > n2.len());
            assert(x.subrange(0, b2.len() as int + 1)[b2.len() as int] == b2.push('/')[b2.len() as int]);
            assert(x[c.len() as int + n2.len()] == '/');
            assert(b1[c.len() as int + n2.len()] == n1[n2.len() as int]);
            assert(false);
        } else if x == b2 {
            assert(x.len() == c.len() + n2.len());
            assert(x.len() > b1.len());
            assert(n2.len() > n1.len());
            assert(x.subrange(0, b1.len() as int + 1)[b1.len() as int] == b1.push('/')[b1.len() as int]);
            assert(x[c.len() as int + n1.len()] == '/');
            assert(b2[c.len() as int + n1.len()] == n2[n1.len() as int]);
            assert(false);
        } else {
            assert(x.len() > b1.len() && x.len() > b2.len());
            if n1.len() < n2.len() {
                assert(x.subrange(0, b1.len() as int + 1)[b1.len() as int] == b1.push(
                    '/',
                )[b1.len() as int]);
                assert(x[b1.len() as int] == '/');
                assert(b1.len() < b2.len());
                assert(x.subrange(0, b2.len() as int + 1)[b1.len() as int] == b2.push(
                    '/',
                )[b1.len() as int]);
                assert(x[b1.len() as int] == b2[b1.len() as int]);
                assert(b2[c.len() as int + n1.len()] == n2[n1.len() as int]);
                assert(false);
            } else if n2.len() < n1.len() {
                assert(x.subrange(0, b2.len() as int + 1)[b2.len() as int] == b2.push(
                    '/',
                )[b2.len() as int]);
                assert(x[b2.len() as int] == '/');
                assert(b2.len() < b1.len());
                assert(x.subrange(0, b1.len() as int + 1)[b2.len() as int] == b1.push(
                    '/',
                )[b2.len() as int]);
                assert(x[b2.len() as int] == b1[b2.len() as int]);
                assert(b1[c.len() as int + n2.len()] == n1[n2.len() as int]);
                assert(false);
            } else {
                assert forall|q: int| 0 <= q < n1.len() implies n1[q] == n2[q] by {
                    assert(x.subrange(0, b1.len() as int + 1)[c.len() as int + q] == b1.push('/')[c.len() as int + q]);
                    assert(x[c.len() as int + q] == b1[c.len() as int + q]);
                    assert(b1[c.len() as int + q] == n1[q]);
                    assert(x.subrange(0, b2.len() as int + 1)[c.len() as int + q] == b2.push('/')[c.len() as int + q]);
                    assert(x[c.len() as int + q] == b2[c.len() as int + q]);
                    assert(b2[c.len() as int + q] == n2[q]);
                }
                assert(n1 =~= n2);
                assert(false);
            }
        }
    }
}


/// Every identifier in the tree below `n` lies at or below `b`.
pub open spec fn node_cone(n: NodeV, b: Seq<char>) -> bool
    decreases n,
{
    id_under(n.id, b) && match n.children {
        Option::Some(cs) => forest_cone(cs, b),
        Option::None => true,
    }
}

/// Every identifier in the forest lies at or below `b`.
pub open spec fn forest_cone(ns: Seq<NodeV>, b: Seq<char>) -> bool
    decreases ns,
{
    if ns.len() == 0 {
        true
    } else {
        forest_cone(ns.drop_last(), b) && node_cone(ns.last(), b)
    }
}

/// `forest_cone` is the element-wise conjunction.
pub proof fn lemma_forest_cone_elementwise(ns: Seq<NodeV>, b: Seq<char>)
    ensures
        forest_cone(ns, b) <==> (forall|i: int|
            0 <= i < ns.len() ==> node_cone(#[trigger] ns[i], b)),
    decreases ns,
{
    if ns.len() > 0 {
        lemma_forest_cone_elementwise(ns.drop_last(), b);
        assert(forall|i: int| 0 <= i < ns.drop_last().len() ==> #[trigger] ns.drop_last()[i]
            == ns[i]);
        if forall|i: int| 0 <= i < ns.len() ==> node_cone(#[trigger] ns[i], b) {
            assert(forall|i: int|
                0 <= i < ns.drop_last().len() ==> node_cone(#[trigger] ns.drop_last()[i], b));
            assert(node_cone(ns.last(), b));
        }
        if forest_cone(ns, b) {
            assert forall|i: int| 0 <= i < ns.len() implies node_cone(#[trigger] ns[i], b) by {
                if i < ns.len() - 1 {
                    assert(node_cone(ns.drop_last()[i], b));
                } else {
                    assert(ns[i] == ns.last());
                }
            }
        }
    }
}

/// No identifier in the tree below `n` lies at or below `t`.
pub open spec fn node_avoids(n: NodeV, t: Seq<char>) -> bool
    decreases n,
{
    !id_under(n.id, t) && match n.children {
        Option::Some(cs) => forest_avoids(cs, t),
        Option::None => true,
    }
}

/// No identifier in the forest lies at or below `t`.
pub open spec fn forest_avoids(ns: Seq<NodeV>, t: Seq<char>) -> bool
    decreases ns,
{
    if ns.len() == 0 {
        true
    } else {
        forest_avoids(ns.drop_last(), t) && node_avoids(ns.last(), t)
    }
}

/// `forest_avoids` is the element-wise conjunction.
pub proof fn lemma_forest_avoids_elementwise(ns: Seq<NodeV>, t: Seq<char>)
    ensures
        forest_avoids(ns, t) <==> (forall|i: int|
            0 <= i < ns.len() ==> node_avoids(#[trigger] ns[i], t)),
    decreases ns,
{
    if ns.len() > 0 {
        lemma_forest_avoids_elementwise(ns.drop_last(), t);
        assert(forall|i: int| 0 <= i < ns.drop_last().len() ==> #[trigger] ns.drop_last()[i]
            == ns[i]);
        if forall|i: int| 0 <= i < ns.len() ==> node_avoids(#[trigger] ns[i], t) {
            assert(forall|i: int|
                0 <= i < ns.drop_last().len() ==> node_avoids(#[trigger] ns.drop_last()[i], t));
            assert(node_avoids(ns.last(), t));
        }
        if forest_avoids(ns, t) {
            assert forall|i: int| 0 <= i < ns.len() implies node_avoids(#[trigger] ns[i], t) by {
                if i < ns.len() - 1 {
                    assert(node_avoids(ns.drop_last()[i], t));
                } else {
                    assert(ns[i] == ns.last());
                }
            }
        }
    }
}

/// A cone below `b2` sits inside any cone whose base `b2` lies below.
pub proof fn lemma_node_cone_widen(n: NodeV, b2: Seq<char>, b: Seq<char>)
    requires
        node_cone(n, b2),
        id_under(b2, b),
    ensures
        node_cone(n, b),
    decreases n,
{
    lemma_id_under_trans(n.id, b2, b);
    match n.children {
        Option::Some(cs) => {
            lemma_forest_cone_widen(cs, b2, b);
        },
        Option::None => {},
    }
}

/// Forest form of cone widening.
pub proof fn lemma_forest_cone_widen(ns: Seq<NodeV>, b2: Seq<char>, b: Seq<char>)
    requires
        forest_cone(ns, b2),
        id_under(b2, b),
    ensures
        forest_cone(ns, b),
    decreases ns,
{
    if ns.len() > 0 {
        lemma_forest_cone_widen(ns.drop_last(), b2, b);
        lemma_node_cone_widen(ns.last(), b2, b);
    }
}

/// A tree confined to a cone that avoids `t` entirely avoids `t`.
pub proof fn lemma_node_cone_avoids(n: NodeV, b: Seq<char>, t: Seq<char>)
    requires
        node_cone(n, b),
        forall|x: Seq<char>| #[trigger] id_under(x, b) ==> !id_under(x, t),
    ensures
        node_avoids(n, t),
    decreases n,
{
    assert(id_under(n.id, b));
    match n.children {
        Option::Some(cs) => {
            lemma_forest_cone_avoids(cs, b, t);
        },
        Option::None => {},
    }
}

/// Forest form of cone avoidance.
pub proof fn lemma_forest_cone_avoids(ns: Seq<NodeV>, b: Seq<char>, t: Seq<char>)
    requires
        forest_cone(ns, b),
        forall|x: Seq<char>| #[trigger] id_under(x, b) ==> !id_under(x, t),
    ensures
        forest_avoids(ns, t),
    decreases ns,
{
    if ns.len() > 0 {
        lemma_forest_cone_avoids(ns.drop_last(), b, t);
        lemma_node_cone_avoids(ns.last(), b, t);
    }
}

/// Everything a scanned entry yields carries an identifier at or below
/// the entry's own.
pub proof fn lemma_scan_entry_cone(
    e: FsEntryV,
    id_prefix: Seq<char>,
    rel: Seq<char>,
    parent: Option<Seq<char>>,
)
    requires
        crate::fsmodel::entry_v_wf(e),
    ensures
        node_cone(scan_entry(e, id_prefix, rel, parent), id_prefix + child_rel(rel, e.name)),
    decreases e,
{
    let my_rel = child_rel(rel, e.name);
    let base = id_prefix + my_rel;
    match e.node {
        FsNodeV::Dir { entries } => {
            let raw = scan_entries(entries, id_prefix, my_rel, Option::Some(base));
            lemma_scan_entries_cone(entries, id_prefix, my_rel, Option::Some(base));
            lemma_sort_nodes_all(|y: NodeV| node_cone(y, base), raw);
            lemma_forest_cone_elementwise(sort_nodes(raw), base);
        },
        FsNodeV::File { .. } => {},
    }
}

/// Everything scanned from a directory body at `rel` carries an
/// identifier at or below the directory's own.
pub proof fn lemma_scan_entries_cone(
    es: Seq<FsEntryV>,
    id_prefix: Seq<char>,
    rel: Seq<char>,
    parent: Option<Seq<char>>,
)
    requires
        rel.len() > 0,
        crate::fsmodel::all_entries_wf(es),
    ensures
        forall|j: int|
            0 <= j < scan_entries(es, id_prefix, rel, parent).len() ==> node_cone(
                #[trigger] scan_entries(es, id_prefix, rel, parent)[j],
                id_prefix + rel,
            ),
    decreases es,
{
    if es.len() > 0 {
        lemma_scan_entries_cone(es.drop_last(), id_prefix, rel, parent);
        let rest = scan_entries(es.drop_last(), id_prefix, rel, parent);
        let out = scan_entries(es, id_prefix, rel, parent);
        let e = es.last();
        let b = id_prefix + rel;
        if !hidden_name(e.name) {
            assert(crate::fsmodel::entry_v_wf(e));
            lemma_scan_entry_cone(e, id_prefix, rel, parent);
            let base_e = id_prefix + child_rel(rel, e.name);
            assert(child_rel(rel, e.name) == rel + seq!['/'] + e.name);
            assert(base_e.len() == b.len() + 1 + e.name.len());
            assert forall|q: int|
                0 <= q < b.len() + 1 implies base_e.subrange(0, b.len() as int + 1)[q] == b.push(
                '/',
            )[q] by {
                assert(base_e.subrange(0, b.len() as int + 1)[q] == base_e[q]);
                if q < id_prefix.len() {
                    assert(base_e[q] == id_prefix[q]);
                    assert(b[q] == id_prefix[q]);
                } else if q < b.len() {
                    assert(base_e[q] == (rel + seq!['/'] + e.name)[q - id_prefix.len()]);
                    assert((rel + seq!['/'] + e.name)[q - id_prefix.len()] == rel[q
                        - id_prefix.len()]);
                    assert(b[q] == rel[q - id_prefix.len()]);
                } else {
                    assert(base_e[q] == (rel + seq!['/'] + e.name)[q - id_prefix.len()]);
                    assert((rel + seq!['/'] + e.name)[q - id_prefix.len()] == '/');
                }
            }
            assert(base_e.subrange(0, b.len() as int + 1) =~= b.push('/'));
            assert(id_under(base_e, b));
            lemma_node_cone_widen(scan_entry(e, id_prefix, rel, parent), base_e, b);
            assert forall|j: int| 0 <= j < out.len() implies node_cone(#[trigger] out[j], b) by {
                if j < rest.len() {
                    assert(out[j] == rest[j]);
                } else {
                    assert(out[j] == scan_entry(e, id_prefix, rel, parent));
                }
            }
        }
    }
}


/// The common text left of every sibling name at this level.
pub open spec fn level_prefix(id_prefix: Seq<char>, rel: Seq<char>) -> Seq<char> {
    if rel.len() == 0 {
        id_prefix
    } else {
        id_prefix + rel + seq!['/']
    }
}

/// A sibling's base identifier is the level prefix followed by its name.
pub proof fn lemma_level_prefix(id_prefix: Seq<char>, rel: Seq<char>, name: Seq<char>)
    ensures
        id_prefix + child_rel(rel, name) == level_prefix(id_prefix, rel) + name,
{
    if rel.len() == 0 {
        assert(id_prefix + child_rel(rel, name) =~= level_prefix(id_prefix, rel) + name);
    } else {
        assert(id_prefix + (rel + seq!['/'] + name) =~= (id_prefix + rel + seq!['/']) + name);
    }
}

/// Scanning a directory in which every entry named `nm` yields a tree
/// that avoids `t` — with `t` at or below `nm`'s base identifier —
/// yields only trees that avoid `t`.
pub proof fn lemma_scan_entries_avoid(
    es: Seq<FsEntryV>,
    id_prefix: Seq<char>,
    rel: Seq<char>,
    parent: Option<Seq<char>>,
    nm: Seq<char>,
    t: Seq<char>,
)
    requires
        crate::fsmodel::all_entries_wf(es),
        crate::paths::seg_ok(nm),
        id_under(t, id_prefix + child_rel(rel, nm)),
        forall|k: int|
            0 <= k < es.len() && (#[trigger] es[k]).name == nm ==> node_avoids(
                scan_entry(es[k], id_prefix, rel, parent),
                t,
            ),
    ensures
        forall|j: int|
            0 <= j < scan_entries(es, id_prefix, rel, parent).len() ==> node_avoids(
                #[trigger] scan_entries(es, id_prefix, rel, parent)[j],
                t,
            ),
    decreases es,
{
    if es.len() > 0 {
        assert(forall|k: int| 0 <= k < es.drop_last().len() ==> #[trigger] es.drop_last()[k]
            == es[k]);
        lemma_scan_entries_avoid(es.drop_last(), id_prefix, rel, parent, nm, t);
        let rest = scan_entries(es.drop_last(), id_prefix, rel, parent);
        let out = scan_entries(es, id_prefix, rel, parent);
        let e = es.last();
        if !hidden_name(e.name) {
            let sn = scan_entry(e, id_prefix, rel, parent);
            if e.name == nm {
                assert(es[es.len() - 1].name == nm);
                assert(node_avoids(sn, t));
            } else {
                crate::fsmodel::lemma_all_entries_wf(es);
                assert(crate::fsmodel::entry_v_wf(e));
                lemma_scan_entry_cone(e, id_prefix, rel, parent);
                let c = level_prefix(id_prefix, rel);
                let base_e = id_prefix + child_rel(rel, e.name);
                lemma_level_prefix(id_prefix, rel, e.name);
                lemma_level_prefix(id_prefix, rel, nm);
                assert forall|x: Seq<char>| #[trigger] id_under(x, base_e) implies !id_under(
                    x,
                    t,
                ) by {
                    lemma_cone_separation(c, e.name, nm, x);
                    if id_under(x, t) {
                        lemma_id_under_trans(x, t, c + nm);
                        assert(false);
                    }
                }
                lemma_node_cone_avoids(sn, base_e, t);
            }
            assert forall|j: int| 0 <= j < out.len() implies node_avoids(#[trigger] out[j], t) by {
                if j < rest.len() {
                    assert(out[j] == rest[j]);
                } else {
                    assert(out[j] == sn);
                }
            }
        }
    }
}

/// Deletion is invisible to the scanner: after removing the entry at
/// `path`, the scanned tree holds no node whose identifier addresses the
/// removed entry or anything that was nested below it.
pub proof fn lemma_scan_after_remove(
    es: Seq<FsEntryV>,
    path: Seq<Seq<char>>,
    id_prefix: Seq<char>,
    rel: Seq<char>,
    parent: Option<Seq<char>>,
)
    requires
        crate::fsmodel::dir_v_wf(es),
        crate::paths::path_ok(path),
        crate::fsmodel::remove_at(es, path) is Ok,
    ensures
        forest_avoids(
            spec_scan(
                crate::fsmodel::remove_at(es, path)->Ok_0,
                id_prefix,
                rel,
                parent,
            ),
            id_prefix + child_rel(rel, crate::paths::joined(path)),
        ),
    decreases path.len(),
{
    let es2 = crate::fsmodel::remove_at(es, path)->Ok_0;
    let nm = path[0];
    let t = id_prefix + child_rel(rel, crate::paths::joined(path));
    let i = crate::fsmodel::name_idx(es, nm);
    crate::fsmodel::lemma_all_entries_wf(es);
    assert(crate::paths::seg_ok(nm));
    crate::fsmodel::lemma_remove_at_wf(es, path);
    if path.len() == 1 {
        crate::fsmodel::lemma_wf_remove(es, i);
        assert(crate::paths::joined(path) == nm);
        assert(id_under(t, id_prefix + child_rel(rel, nm)));
        assert(forall|k: int| 0 <= k < es2.len() ==> (#[trigger] es2[k]).name != nm);
        lemma_scan_entries_avoid(es2, id_prefix, rel, parent, nm, t);
        let raw = scan_entries(es2, id_prefix, rel, parent);
        lemma_sort_nodes_all(|y: NodeV| node_avoids(y, t), raw);
        lemma_forest_avoids_elementwise(sort_nodes(raw), t);
    } else {
        crate::fsmodel::lemma_wf_child(es, i);
        match es[i].node {
            FsNodeV::Dir { entries } => {
                let sub2 = crate::fsmodel::remove_at(entries, path.drop_first())->Ok_0;
                assert(es2 == es.update(
                    i,
                    FsEntryV { name: nm, node: FsNodeV::Dir { entries: sub2 } },
                ));
                let my_rel = child_rel(rel, nm);
                let base_i = id_prefix + my_rel;
                crate::fsmodel::lemma_path_ok_drop_first(path);
                lemma_scan_after_remove(
                    entries,
                    path.drop_first(),
                    id_prefix,
                    my_rel,
                    Option::Some(base_i),
                );
                crate::paths::lemma_joined_cons(path);
                let jd = crate::paths::joined(path.drop_first());
                assert(crate::paths::joined(path) == nm + seq!['/'] + jd);
                assert(t =~= base_i + seq!['/'] + jd);
                assert(t == id_prefix + child_rel(my_rel, jd)) by {
                    if rel.len() == 0 {
                        assert(my_rel == nm);
                        assert(child_rel(my_rel, jd) == nm + seq!['/'] + jd);
                        assert(id_prefix + child_rel(my_rel, jd) =~= t);
                    } else {
                        assert(my_rel == rel + seq!['/'] + nm);
                        assert(child_rel(my_rel, jd) == my_rel + seq!['/'] + jd);
                        assert(id_prefix + (my_rel + seq!['/'] + jd) =~= (id_prefix + my_rel)
                            + seq!['/'] + jd);
                        assert(child_rel(rel, crate::paths::joined(path)) == rel + seq!['/'] + (nm
                            + seq!['/'] + jd));
                        assert(id_prefix + (rel + seq!['/'] + (nm + seq!['/'] + jd)) =~= (id_prefix
                            + my_rel) + seq!['/'] + jd);
                    }
                }
                // The subtree node itself: its identifier is base_i,
                // strictly above t.
                crate::paths::lemma_joined_nonempty(path.drop_first());
                assert(t.len() > base_i.len());
                assert(!id_under(base_i, t));
                let sn = scan_entry(es2[i], id_prefix, rel, parent);
                assert(es2[i].name == nm);
                assert(es2[i].node == FsNodeV::Dir { entries: sub2 });
                let raw_children = scan_entries(sub2, id_prefix, my_rel, Option::Some(base_i));
                lemma_forest_avoids_elementwise(
                    spec_scan(sub2, id_prefix, my_rel, Option::Some(base_i)),
                    t,
                );
                assert(node_avoids(sn, t));
                // Other entries carry other names.
                assert forall|k: int|
                    0 <= k < es2.len() && (#[trigger] es2[k]).name == nm implies node_avoids(
                    scan_entry(es2[k], id_prefix, rel, parent),
                    t,
                ) by {
                    if k != i {
                        assert(es2[k] == es[k]);
                        assert(es[k].name != es[i].name);
                        assert(false);
                    }
                }
                assert(id_under(t, id_prefix + child_rel(rel, nm))) by {
                    assert(t.subrange(0, base_i.len() as int + 1) =~= base_i.push('/'));
                }
                lemma_scan_entries_avoid(es2, id_prefix, rel, parent, nm, t);
                let raw = scan_entries(es2, id_prefix, rel, parent);
                lemma_sort_nodes_all(|y: NodeV| node_avoids(y, t), raw);
                lemma_forest_avoids_elementwise(sort_nodes(raw), t);
            },
            FsNodeV::File { .. } => {},
        }
    }
}


/// Deletion is irreversible and complete, as a load sees it: after the
/// entry at `path` is removed from a vault's backing directory, a fresh
/// scan of that directory holds no node whose identifier is the encoded
/// form of the removed path or of anything nested below it.
pub proof fn lemma_load_after_delete(es: Seq<FsEntryV>, path: Seq<Seq<char>>, vault_id: Seq<char>)
    requires
        crate::fsmodel::dir_v_wf(es),
        crate::paths::path_ok(path),
        crate::fsmodel::remove_at(es, path) is Ok,
    ensures
        forest_avoids(
            spec_scan(
                crate::fsmodel::remove_at(es, path)->Ok_0,
                vault_id + seq![':'],
                Seq::empty(),
                Option::None,
            ),
            crate::codec::encoded(vault_id, crate::paths::joined(path)),
        ),
{
    lemma_scan_after_remove(es, path, vault_id + seq![':'], Seq::empty(), Option::None);
    assert(child_rel(Seq::empty(), crate::paths::joined(path)) == crate::paths::joined(path));
    assert((vault_id + seq![':']) + crate::paths::joined(path) =~= crate::codec::encoded(
        vault_id,
        crate::paths::joined(path),
    ));
}

} // verus!

//! Nodes of the virtual namespace: one entry (folder, note file, or
//! canvas file) of a vault's tree, with its ordered children.
use vstd::prelude::*;

verus! {

/// The kind of a node, derived from filesystem shape and extension.
#[derive(Clone, Copy, PartialEq, Eq, Structural, Debug)]
pub enum NodeKind {
    Folder,
    File,
    Canvas,
}

/// One node of a vault tree. `children` is present exactly for folders
/// in scanned trees; `content` stays empty in scan results and may carry
/// inline text in persisted documents. `parent_id` is a derived
/// back-reference; ownership is top-down through `children`.
pub struct Node {
    pub id: String,
    pub name: String,
    pub kind: NodeKind,
    pub children: Option<Vec<Node>>,
    pub content: Option<String>,
    pub parent_id: Option<String>,
}

/// Mathematical form of a node.
#[verifier::ext_equal]
pub ghost struct NodeV {
    pub id: Seq<char>,
    pub name: Seq<char>,
    pub kind: NodeKind,
    pub children: Option<Seq<NodeV>>,
    pub content: Option<Seq<char>>,
    pub parent_id: Option<Seq<char>>,
}

/// The view of an optional string.
pub open spec fn opt_view(o: Option<String>) -> Option<Seq<char>> {
    match o {
        Option::Some(s) => Option::Some(s@),
        Option::None => Option::None,
    }
}

/// The mathematical form of a node.
pub open spec fn node_v(n: Node) -> NodeV
    decreases n,
{
    NodeV {
        id: n.id@,
        name: n.name@,
        kind: n.kind,
        children: match n.children {
            Option::Some(cs) => Option::Some(nodes_v(cs@)),
            Option::None => Option::None,
        },
        content: opt_view(n.content),
        parent_id: opt_view(n.parent_id),
    }
}

/// The mathematical form of a node sequence.
pub open spec fn nodes_v(ns: Seq<Node>) -> Seq<NodeV>
    decreases ns,
{
    if ns.len() == 0 {
        Seq::empty()
    } else {
        nodes_v(ns.drop_last()).push(node_v(ns.last()))
    }
}

/// `nodes_v` is the element-wise view.
pub proof fn lemma_nodes_v(ns: Seq<Node>)
    ensures
        nodes_v(ns).len() == ns.len(),
        forall|i: int| 0 <= i < ns.len() ==> nodes_v(ns)[i] == node_v(#[trigger] ns[i]),
    decreases ns,
{
    if ns.len() > 0 {
        lemma_nodes_v(ns.drop_last());
        assert forall|i: int| 0 <= i < ns.len() implies nodes_v(ns)[i] == node_v(
            #[trigger] ns[i],
        ) by {
            if i < ns.len() - 1 {
                assert(ns.drop_last()[i] == ns[i]);
                assert(nodes_v(ns)[i] == nodes_v(ns.drop_last())[i]);
            } else {
                assert(ns[i] == ns.last());
            }
        }
    }
}

/// The view of an appended node.
pub proof fn lemma_nodes_v_push(a: Seq<Node>, b: Seq<Node>, x: Node)
    requires
        b =~= a.push(x),
    ensures
        nodes_v(b) == nodes_v(a).push(node_v(x)),
{
    lemma_nodes_v(a);
    lemma_nodes_v(b);
    assert forall|k: int| 0 <= k < b.len() implies nodes_v(b)[k] == nodes_v(a).push(node_v(x))[k] by {
        if k < a.len() {
            assert(b[k] == a[k]);
        } else {
            assert(b[k] == x);
        }
    }
    assert(nodes_v(b) =~= nodes_v(a).push(node_v(x)));
}

/// A deep copy of an optional string.
pub fn clone_opt_string(o: &Option<String>) -> (r: Option<String>)
    ensures
        opt_view(r) == opt_view(*o),
{
    match o {
        Option::Some(s) => Option::Some(s.clone()),
        Option::None => Option::None,
    }
}

/// A deep copy of a node, equal to the original in mathematical form.
pub fn clone_node(n: &Node) -> (r: Node)
    ensures
        node_v(r) == node_v(*n),
    decreases n,
{
    let children = match &n.children {
        Option::Some(cs) => Option::Some(clone_nodes(cs)),
        Option::None => Option::None,
    };
    let r = Node {
        id: n.id.clone(),
        name: n.name.clone(),
        kind: n.kind,
        children,
        content: clone_opt_string(&n.content),
        parent_id: clone_opt_string(&n.parent_id),
    };
    proof {
        assert(node_v(r) =~= node_v(*n));
    }
    r
}

/// A deep copy of a node sequence, equal to the original in mathematical
/// form.
#[verifier::loop_isolation(false)]
pub fn clone_nodes(ns: &Vec<Node>) -> (r: Vec<Node>)
    ensures
        nodes_v(r@) == nodes_v(ns@),
    decreases ns,
{
    proof {
        lemma_nodes_v(ns@);
    }
    let mut out: Vec<Node> = Vec::new();
    let mut k: usize = 0;
    while k < ns.len()
        invariant
            k <= ns@.len(),
            nodes_v(out@) == nodes_v(ns@.subrange(0, k as int)),
        decreases ns@.len() - k,
    {
        proof {
            assert(decreases_to!(*ns => ns@));
            assert(decreases_to!(ns@ => ns@[k as int]));
        }
        let c = clone_node(&ns[k]);
        let ghost out0 = out@;
        out.push(c);
        proof {
            lemma_nodes_v_push(out0, out@, c);
            assert(ns@.subrange(0, k + 1 as int).drop_last() =~= ns@.subrange(0, k as int));
            assert(ns@.subrange(0, k + 1 as int).last() == ns@[k as int]);
        }
        k = k + 1;
    }
    proof {
        assert(ns@.subrange(0, ns@.len() as int) =~= ns@);
    }
    out
}

} // verus!

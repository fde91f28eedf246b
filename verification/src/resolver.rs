//! Tree resolver: per vault, chooses between scanning the real backing
//! directory and reading the persisted tree document, and performs the
//! mirrored write path.
//!
//! When a vault is path-backed and its directory is present, the
//! filesystem is the single source of truth: loads scan it afresh and
//! saves are a no-op. Otherwise the persisted document holds the tree,
//! and an absent document is the empty tree.
use crate::errors::StoreError;
use crate::node::Node;
use crate::node::NodeV;
use crate::node::clone_nodes;
use crate::node::nodes_v;
use crate::scan::scan_directory;
use crate::scan::spec_scan;
use crate::text::is_absolute_path;
use crate::world::KvDoc;
use crate::world::Mount;
use crate::world::MountV;
use crate::world::TreeDoc;
use crate::world::TreeDocV;
use crate::world::World;
use crate::world::disk_has;
use crate::world::disk_idx;
use crate::world::find_mount;
use crate::world::find_tree;
use crate::world::find_vault;
use crate::world::kvs_v;
use crate::world::lemma_disk_idx;
use crate::world::lemma_tree_idx;
use crate::world::lemma_vault_idx;
use crate::world::mount_v;
use crate::world::mounts_v;
use crate::world::tree_doc_v;
use crate::world::tree_get;
use crate::world::tree_has;
use crate::world::tree_idx;
use crate::world::tree_put;
use crate::world::trees_v;
use crate::world::vault_backing;
use crate::world::vault_idx;
use crate::world::vault_v;
use crate::world::vaults_v;
use crate::world::has_vault;
use crate::world::world_wf;
use vstd::prelude::*;

verus! {

/// The absolute backing path of the vault `vid` in `w`, when the vault
/// exists and is path-backed.
pub open spec fn spec_backing_of(w: World, vid: Seq<char>) -> Option<Seq<char>> {
    if has_vault(vaults_v(w.vaults@), vid) {
        vault_backing(vaults_v(w.vaults@)[vault_idx(vaults_v(w.vaults@), vid)])
    } else {
        Option::None
    }
}

/// The mount of the vault's backing directory, when the vault is
/// path-backed and its directory currently exists.
pub open spec fn spec_live_mount(w: World, vid: Seq<char>) -> Option<int> {
    match spec_backing_of(w, vid) {
        Option::Some(p) => if disk_has(mounts_v(w.disk@), p) {
            Option::Some(disk_idx(mounts_v(w.disk@), p))
        } else {
            Option::None
        },
        Option::None => Option::None,
    }
}

/// A loaded tree, and where it came from: a fresh scan of the backing
/// directory, or the persisted tree document (empty when absent).
pub enum TreeSource {
    Scanned(Vec<Node>),
    Stored(Vec<Node>),
}

/// Loads the tree of a vault. A path-backed vault whose directory
/// exists is scanned afresh — never merged with a persisted document;
/// everything else reads the persisted document, absent meaning empty.
pub fn load_tree(w: &World, vault_id: &str) -> (r: TreeSource)
    requires
        world_wf(*w),
    ensures
        match r {
            TreeSource::Scanned(ns) => spec_live_mount(*w, vault_id@) is Some && nodes_v(ns@)
                == spec_scan(
                mounts_v(w.disk@)[spec_live_mount(*w, vault_id@)->0].entries,
                vault_id@ + seq![':'],
                Seq::empty(),
                Option::None,
            ),
            TreeSource::Stored(ns) => spec_live_mount(*w, vault_id@) is None && nodes_v(ns@)
                == tree_get(trees_v(w.trees@), vault_id@),
        },
{
    let ghost vs = vaults_v(w.vaults@);
    match find_vault(&w.vaults, vault_id) {
        Option::Some(j) => {
            proof {
                lemma_vault_idx(vs, vault_id@, j as int);
                assert(vs[j as int] == vault_v(w.vaults@[j as int]));
            }
            match &w.vaults[j].path {
                Option::Some(p) => {
                    if is_absolute_path(p.as_str()) {
                        match find_mount(&w.disk, p.as_str()) {
                            Option::Some(m) => {
                                proof {
                                    lemma_disk_idx(mounts_v(w.disk@), p@, m as int);
                                    assert(mounts_v(w.disk@)[m as int] == mount_v(
                                        w.disk@[m as int],
                                    ));
                                }
                                let prefix = crate::text::concat2(vault_id, ":");
                                let ns = scan_directory(
                                    &w.disk[m].entries,
                                    prefix.as_str(),
                                    "",
                                    &Option::None,
                                );
                                proof {
                                    reveal_strlit(":");
                                    reveal_strlit("");
                                    assert(prefix@ =~= vault_id@ + seq![':']);
                                    assert(""@ =~= Seq::<char>::empty());
                                }
                                return TreeSource::Scanned(ns);
                            },
                            Option::None => {},
                        }
                    }
                },
                Option::None => {},
            }
            stored_tree_of(w, vault_id)
        },
        Option::None => stored_tree_of(w, vault_id),
    }
}

/// The persisted tree document of a vault, as a loaded tree; absent is
/// the empty tree.
fn stored_tree_of(w: &World, vault_id: &str) -> (r: TreeSource)
    requires
        world_wf(*w),
    ensures
        r is Stored,
        nodes_v(r->Stored_0@) == tree_get(trees_v(w.trees@), vault_id@),
{
    match find_tree(&w.trees, vault_id) {
        Option::Some(t) => {
            proof {
                lemma_tree_idx(trees_v(w.trees@), vault_id@, t as int);
                assert(trees_v(w.trees@)[t as int] == tree_doc_v(w.trees@[t as int]));
            }
            TreeSource::Stored(clone_nodes(&w.trees[t].nodes))
        },
        Option::None => TreeSource::Stored(Vec::new()),
    }
}

/// Saves the tree of a vault. For a path-backed vault whose directory
/// exists this is a no-op — the filesystem is authoritative and the
/// world is left exactly as it was. Otherwise the persisted tree
/// document for the vault is overwritten wholesale.
pub fn save_tree(w: &mut World, vault_id: &str, doc: Vec<Node>)
    requires
        world_wf(*old(w)),
    ensures
        world_wf(*final (w)),
        spec_live_mount(*old(w), vault_id@) is Some ==> *final (w) == *old(w),
        spec_live_mount(*old(w), vault_id@) is None ==> {
            &&& trees_v(final (w).trees@) == tree_put(
                trees_v(old(w).trees@),
                vault_id@,
                nodes_v(doc@),
            )
            &&& final (w).vaults@ == old(w).vaults@
            &&& final (w).contents@ == old(w).contents@
            &&& final (w).workspace_plugins@ == old(w).workspace_plugins@
            &&& final (w).plugin_records@ == old(w).plugin_records@
            &&& final (w).prefs@ == old(w).prefs@
            &&& final (w).docs@ == old(w).docs@
            &&& final (w).disk@ == old(w).disk@
        },
{
    let ghost vs = vaults_v(w.vaults@);
    let mut live = false;
    match find_vault(&w.vaults, vault_id) {
        Option::Some(j) => {
            proof {
                lemma_vault_idx(vs, vault_id@, j as int);
                assert(vs[j as int] == vault_v(w.vaults@[j as int]));
            }
            match &w.vaults[j].path {
                Option::Some(p) => {
                    if is_absolute_path(p.as_str()) {
                        match find_mount(&w.disk, p.as_str()) {
                            Option::Some(m) => {
                                proof {
                                    lemma_disk_idx(mounts_v(w.disk@), p@, m as int);
                                }
                                live = true;
                            },
                            Option::None => {},
                        }
                    }
                },
                Option::None => {},
            }
        },
        Option::None => {},
    }
    if live {
        return ;
    }
    let ghost s0 = trees_v(old(w).trees@);
    match find_tree(&w.trees, vault_id) {
        Option::Some(t) => {
            proof {
                lemma_tree_idx(s0, vault_id@, t as int);
            }
            let ghost t0 = w.trees@;
            let old_doc = w.trees.remove(t);
            let nd = TreeDoc { vault_id: old_doc.vault_id, nodes: doc };
            w.trees.insert(t, nd);
            proof {
                assert(old_doc == t0[t as int]);
                assert(w.trees@ =~= t0.update(t as int, nd));
                assert forall|k: int| 0 <= k < w.trees@.len() implies trees_v(w.trees@)[k]
                    == s0.update(
                    t as int,
                    TreeDocV { vault_id: vault_id@, nodes: nodes_v(doc@) },
                )[k] by {
                    assert(trees_v(w.trees@)[k] == tree_doc_v(w.trees@[k]));
                    if k != t {
                        assert(w.trees@[k] == t0[k]);
                        assert(s0[k] == tree_doc_v(t0[k]));
                    } else {
                        assert(tree_doc_v(nd) =~= TreeDocV {
                            vault_id: vault_id@,
                            nodes: nodes_v(doc@),
                        });
                    }
                }
                assert(trees_v(w.trees@) =~= s0.update(
                    t as int,
                    TreeDocV { vault_id: vault_id@, nodes: nodes_v(doc@) },
                ));
                assert forall|a: int, b: int|
                    0 <= a < b < trees_v(w.trees@).len() implies trees_v(w.trees@)[a].vault_id
                    != trees_v(w.trees@)[b].vault_id by {
                    assert(trees_v(w.trees@)[a].vault_id == s0[a].vault_id);
                    assert(trees_v(w.trees@)[b].vault_id == s0[b].vault_id);
                }
            }
        },
        Option::None => {
            let ghost t0 = w.trees@;
            let nd = TreeDoc { vault_id: vault_id.to_owned(), nodes: doc };
            w.trees.push(nd);
            proof {
                assert(w.trees@ =~= t0.push(nd));
                assert forall|k: int| 0 <= k < w.trees@.len() implies trees_v(w.trees@)[k]
                    == s0.push(TreeDocV { vault_id: vault_id@, nodes: nodes_v(doc@) })[k] by {
                    assert(trees_v(w.trees@)[k] == tree_doc_v(w.trees@[k]));
                    if k < t0.len() {
                        assert(w.trees@[k] == t0[k]);
                        assert(s0[k] == tree_doc_v(t0[k]));
                    } else {
                        assert(w.trees@[k] == nd);
                    }
                }
                assert(trees_v(w.trees@) =~= s0.push(
                    TreeDocV { vault_id: vault_id@, nodes: nodes_v(doc@) },
                ));
                assert forall|a: int, b: int|
                    0 <= a < b < trees_v(w.trees@).len() implies trees_v(w.trees@)[a].vault_id
                    != trees_v(w.trees@)[b].vault_id by {
                    if b < s0.len() {
                        assert(trees_v(w.trees@)[a].vault_id == s0[a].vault_id);
                        assert(trees_v(w.trees@)[b].vault_id == s0[b].vault_id);
                    } else {
                        assert(trees_v(w.trees@)[a].vault_id == s0[a].vault_id);
                        assert(trees_v(w.trees@)[b].vault_id == vault_id@);
                    }
                }
            }
        },
    }
}

/// The parsed tree snapshot kept inside a mounted vault folder's
/// reserved metadata subdirectory; empty when the folder is not mounted
/// or keeps no snapshot.
pub open spec fn snapshot_at(w: World, p: Seq<char>) -> Seq<NodeV> {
    if disk_has(mounts_v(w.disk@), p) {
        match mounts_v(w.disk@)[disk_idx(mounts_v(w.disk@), p)].snapshot {
            Option::Some(ns) => ns,
            Option::None => Seq::empty(),
        }
    } else {
        Seq::empty()
    }
}

/// Stores a tree snapshot inside a mounted vault folder's reserved
/// metadata subdirectory.
pub fn save_tree_to_vault_path(w: &mut World, vault_folder: &str, doc: Vec<Node>) -> (r: Result<
    (),
    StoreError,
>)
    requires
        world_wf(*old(w)),
    ensures
        world_wf(*final (w)),
        final (w).vaults@ == old(w).vaults@,
        final (w).trees@ == old(w).trees@,
        final (w).contents@ == old(w).contents@,
        final (w).workspace_plugins@ == old(w).workspace_plugins@,
        final (w).plugin_records@ == old(w).plugin_records@,
        final (w).prefs@ == old(w).prefs@,
        final (w).docs@ == old(w).docs@,
        match r {
            Result::Ok(()) => disk_has(mounts_v(old(w).disk@), vault_folder@) && mounts_v(
                final (w).disk@,
            ) == mounts_v(old(w).disk@).update(
                disk_idx(mounts_v(old(w).disk@), vault_folder@),
                MountV {
                    snapshot: Option::Some(nodes_v(doc@)),
                    ..mounts_v(old(w).disk@)[disk_idx(mounts_v(old(w).disk@), vault_folder@)]
                },
            ),
            Result::Err(e) => e == StoreError::VaultPathMissing && !disk_has(
                mounts_v(old(w).disk@),
                vault_folder@,
            ) && *final (w) == *old(w),
        },
{
    let ghost s0 = mounts_v(old(w).disk@);
    match find_mount(&w.disk, vault_folder) {
        Option::Some(m) => {
            proof {
                lemma_disk_idx(s0, vault_folder@, m as int);
            }
            let ghost d0 = w.disk@;
            let old_mount = w.disk.remove(m);
            let nm = Mount {
                path: old_mount.path,
                entries: old_mount.entries,
                snapshot: Option::Some(doc),
                meta_contents: old_mount.meta_contents,
            };
            w.disk.insert(m, nm);
            proof {
                assert(old_mount == d0[m as int]);
                assert(w.disk@ =~= d0.update(m as int, nm));
                let nmv = MountV { snapshot: Option::Some(nodes_v(doc@)), ..s0[m as int] };
                assert forall|k: int| 0 <= k < w.disk@.len() implies mounts_v(w.disk@)[k]
                    == s0.update(m as int, nmv)[k] by {
                    assert(mounts_v(w.disk@)[k] == mount_v(w.disk@[k]));
                    if k != m {
                        assert(w.disk@[k] == d0[k]);
                        assert(s0[k] == mount_v(d0[k]));
                    } else {
                        assert(mount_v(nm) =~= nmv);
                    }
                }
                assert(mounts_v(w.disk@) =~= s0.update(m as int, nmv));
                assert forall|a: int, b: int|
                    0 <= a < b < mounts_v(w.disk@).len() implies mounts_v(w.disk@)[a].path
                    != mounts_v(w.disk@)[b].path by {
                    assert(mounts_v(w.disk@)[a].path == s0[a].path);
                    assert(mounts_v(w.disk@)[b].path == s0[b].path);
                }
            }
            Result::Ok(())
        },
        Option::None => Result::Err(StoreError::VaultPathMissing),
    }
}

/// Loads the tree snapshot from a mounted vault folder's reserved
/// metadata subdirectory; an unmounted folder or a missing snapshot
/// reads as the empty tree.
pub fn load_tree_from_vault_path(w: &World, vault_folder: &str) -> (r: Vec<Node>)
    requires
        world_wf(*w),
    ensures
        nodes_v(r@) == snapshot_at(*w, vault_folder@),
{
    match find_mount(&w.disk, vault_folder) {
        Option::Some(m) => {
            proof {
                lemma_disk_idx(mounts_v(w.disk@), vault_folder@, m as int);
                assert(mounts_v(w.disk@)[m as int] == mount_v(w.disk@[m as int]));
            }
            match &w.disk[m].snapshot {
                Option::Some(ns) => clone_nodes(ns),
                Option::None => Vec::new(),
            }
        },
        Option::None => Vec::new(),
    }
}


/// Some top-level node of the sequence carries this identifier.
pub open spec fn nodes_have_id(ns: Seq<NodeV>, id: Seq<char>) -> bool {
    exists|i: int| 0 <= i < ns.len() && (#[trigger] ns[i]).id == id
}

/// Whether some top-level node carries this identifier.
#[verifier::loop_isolation(false)]
pub fn nodes_contain_id(ns: &Vec<Node>, id: &str) -> (r: bool)
    ensures
        r == nodes_have_id(nodes_v(ns@), id@),
{
    proof {
        crate::node::lemma_nodes_v(ns@);
    }
    let n = ns.len();
    let mut k: usize = 0;
    while k < n
        invariant
            k <= n,
            forall|j: int| 0 <= j < k ==> (#[trigger] nodes_v(ns@)[j]).id != id@,
        decreases n - k,
    {
        if crate::text::str_eq(ns[k].id.as_str(), id) {
            return true;
        }
        k = k + 1;
    }
    false
}

/// Vault `i` hosts the legacy file `fid`: the vault is path-backed and
/// the tree snapshot in its mounted folder names `fid` at top level.
pub open spec fn vault_hosts(w: World, i: int, fid: Seq<char>) -> bool {
    &&& 0 <= i < vaults_v(w.vaults@).len()
    &&& vault_backing(vaults_v(w.vaults@)[i]) is Some
    &&& nodes_have_id(snapshot_at(w, vault_backing(vaults_v(w.vaults@)[i])->0), fid)
}

/// The backing folder of the first vault whose persisted tree snapshot
/// names `file_id`, used to co-locate legacy content with the vault.
#[verifier::loop_isolation(false)]
pub fn find_vault_folder_for_file(w: &World, file_id: &str) -> (r: Option<String>)
    requires
        world_wf(*w),
    ensures
        match r {
            Option::Some(p) => exists|i: int|
                #[trigger] vault_hosts(*w, i, file_id@) && p@ == vault_backing(
                    vaults_v(w.vaults@)[i],
                )->0 && (forall|j: int| 0 <= j < i ==> !vault_hosts(*w, j, file_id@)),
            Option::None => forall|i: int| !(#[trigger] vault_hosts(*w, i, file_id@)),
        },
{
    let n = w.vaults.len();
    let mut i: usize = 0;
    while i < n
        invariant
            i <= n,
            forall|j: int| 0 <= j < i ==> !(#[trigger] vault_hosts(*w, j, file_id@)),
        decreases n - i,
    {
        proof {
            assert(vaults_v(w.vaults@)[i as int] == vault_v(w.vaults@[i as int]));
        }
        match &w.vaults[i].path {
            Option::Some(p) => {
                if is_absolute_path(p.as_str()) {
                    match find_mount(&w.disk, p.as_str()) {
                        Option::Some(m) => {
                            proof {
                                lemma_disk_idx(mounts_v(w.disk@), p@, m as int);
                                assert(mounts_v(w.disk@)[m as int] == mount_v(w.disk@[m as int]));
                            }
                            match &w.disk[m].snapshot {
                                Option::Some(ns) => {
                                    if nodes_contain_id(ns, file_id) {
                                        proof {
                                            assert(vault_hosts(*w, i as int, file_id@));
                                        }
                                        return Option::Some(p.clone());
                                    }
                                },
                                Option::None => {},
                            }
                        },
                        Option::None => {},
                    }
                }
            },
            Option::None => {},
        }
        proof {
            assert(!nodes_have_id(Seq::<NodeV>::empty(), file_id@));
            assert(!vault_hosts(*w, i as int, file_id@));
        }
        i = i + 1;
    }
    Option::None
}

} // verus!

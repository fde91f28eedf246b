//! The storage world: the vault registry, the modelled disk with its
//! mounted vault directories, and the application-managed JSON documents
//! (persisted trees, content records, plugin lists, preferences).
//!
//! Real I/O stays outside the library; callers mirror files into this
//! value and mirror changes back.
use crate::errors::StoreError;
use crate::fsmodel::FsEntry;
use crate::fsmodel::FsEntryV;
use crate::fsmodel::dir_v_wf;
use crate::fsmodel::entries_view;
use crate::node::Node;
use crate::node::NodeV;
use crate::node::nodes_v;
use crate::text::absolute_path;
use crate::text::is_absolute_path;
use crate::text::str_eq;
use vstd::prelude::*;

verus! {

/// One vault descriptor of the registry.
pub struct Vault {
    pub id: String,
    pub name: String,
    pub path: Option<String>,
    pub created_at: i64,
}

/// Mathematical form of a vault descriptor.
#[verifier::ext_equal]
pub ghost struct VaultV {
    pub id: Seq<char>,
    pub name: Seq<char>,
    pub path: Option<Seq<char>>,
    pub created_at: i64,
}

/// The mathematical form of a vault descriptor.
pub open spec fn vault_v(v: Vault) -> VaultV {
    VaultV {
        id: v.id@,
        name: v.name@,
        path: match v.path {
            Option::Some(p) => Option::Some(p@),
            Option::None => Option::None,
        },
        created_at: v.created_at,
    }
}

/// The mathematical form of the registry.
pub open spec fn vaults_v(s: Seq<Vault>) -> Seq<VaultV> {
    s.map_values(|v: Vault| vault_v(v))
}

/// Some descriptor carries this identifier.
pub open spec fn has_vault(vs: Seq<VaultV>, id: Seq<char>) -> bool {
    exists|i: int| 0 <= i < vs.len() && (#[trigger] vs[i]).id == id
}

/// The position of the descriptor carrying this identifier.
pub open spec fn vault_idx(vs: Seq<VaultV>, id: Seq<char>) -> int {
    choose|i: int| 0 <= i < vs.len() && (#[trigger] vs[i]).id == id
}

/// Identifiers are unique within the registry.
pub open spec fn registry_ids_unique(vs: Seq<VaultV>) -> bool {
    forall|i: int, j: int| 0 <= i < j < vs.len() ==> vs[i].id != vs[j].id
}

/// In a registry with unique identifiers, the descriptor found at `j` is
/// the one `vault_idx` denotes.
pub proof fn lemma_vault_idx(vs: Seq<VaultV>, id: Seq<char>, j: int)
    requires
        registry_ids_unique(vs),
        0 <= j < vs.len(),
        vs[j].id == id,
    ensures
        has_vault(vs, id),
        vault_idx(vs, id) == j,
{
    assert(has_vault(vs, id));
    let i = vault_idx(vs, id);
    assert(0 <= i < vs.len() && vs[i].id == id);
}

/// The absolute backing path of a vault, when it has one: a descriptor
/// with a missing, relative or malformed path is app-managed.
pub open spec fn vault_backing(v: VaultV) -> Option<Seq<char>> {
    match v.path {
        Option::Some(p) => if absolute_path(p) {
            Option::Some(p)
        } else {
            Option::None
        },
        Option::None => Option::None,
    }
}

/// One application-managed JSON document, or one record of a keyed
/// collection: a key and its raw text.
pub struct KvDoc {
    pub key: String,
    pub text: String,
}

/// The mathematical form of a keyed document.
pub open spec fn kv_v(d: KvDoc) -> (Seq<char>, Seq<char>) {
    (d.key@, d.text@)
}

/// The mathematical form of a keyed document list.
pub open spec fn kvs_v(s: Seq<KvDoc>) -> Seq<(Seq<char>, Seq<char>)> {
    s.map_values(|d: KvDoc| kv_v(d))
}

/// Some record carries this key.
pub open spec fn kv_has(s: Seq<(Seq<char>, Seq<char>)>, k: Seq<char>) -> bool {
    exists|i: int| 0 <= i < s.len() && (#[trigger] s[i]).0 == k
}

/// The position of the record carrying this key.
pub open spec fn kv_idx(s: Seq<(Seq<char>, Seq<char>)>, k: Seq<char>) -> int {
    choose|i: int| 0 <= i < s.len() && (#[trigger] s[i]).0 == k
}

/// Keys are unique within the list.
pub open spec fn kv_keys_unique(s: Seq<(Seq<char>, Seq<char>)>) -> bool {
    forall|i: int, j: int| 0 <= i < j < s.len() ==> s[i].0 != s[j].0
}

/// Reading a keyed document: its text, or empty text when absent.
pub open spec fn kv_get(s: Seq<(Seq<char>, Seq<char>)>, k: Seq<char>) -> Seq<char> {
    if kv_has(s, k) {
        s[kv_idx(s, k)].1
    } else {
        Seq::empty()
    }
}

/// Writing a keyed document: overwrite in place, or append.
pub open spec fn kv_put(
    s: Seq<(Seq<char>, Seq<char>)>,
    k: Seq<char>,
    v: Seq<char>,
) -> Seq<(Seq<char>, Seq<char>)> {
    if kv_has(s, k) {
        s.update(kv_idx(s, k), (k, v))
    } else {
        s.push((k, v))
    }
}

/// Deleting a keyed document: remove it, or leave the list as it is.
pub open spec fn kv_del(s: Seq<(Seq<char>, Seq<char>)>, k: Seq<char>) -> Seq<
    (Seq<char>, Seq<char>),
> {
    if kv_has(s, k) {
        s.remove(kv_idx(s, k))
    } else {
        s
    }
}

/// With unique keys, the record found at `j` is the one `kv_idx`
/// denotes.
pub proof fn lemma_kv_idx(s: Seq<(Seq<char>, Seq<char>)>, k: Seq<char>, j: int)
    requires
        kv_keys_unique(s),
        0 <= j < s.len(),
        s[j].0 == k,
    ensures
        kv_has(s, k),
        kv_idx(s, k) == j,
{
    assert(kv_has(s, k));
    let i = kv_idx(s, k);
    assert(0 <= i < s.len() && s[i].0 == k);
}

/// One persisted tree document of an app-managed vault.
pub struct TreeDoc {
    pub vault_id: String,
    pub nodes: Vec<Node>,
}

/// Mathematical form of a persisted tree document.
#[verifier::ext_equal]
pub ghost struct TreeDocV {
    pub vault_id: Seq<char>,
    pub nodes: Seq<NodeV>,
}

/// The mathematical form of a persisted tree document.
pub open spec fn tree_doc_v(d: TreeDoc) -> TreeDocV {
    TreeDocV { vault_id: d.vault_id@, nodes: nodes_v(d.nodes@) }
}

/// The mathematical form of the tree document list.
pub open spec fn trees_v(s: Seq<TreeDoc>) -> Seq<TreeDocV> {
    s.map_values(|d: TreeDoc| tree_doc_v(d))
}

/// Some tree document belongs to this vault.
pub open spec fn tree_has(s: Seq<TreeDocV>, vid: Seq<char>) -> bool {
    exists|i: int| 0 <= i < s.len() && (#[trigger] s[i]).vault_id == vid
}

/// The position of the tree document of this vault.
pub open spec fn tree_idx(s: Seq<TreeDocV>, vid: Seq<char>) -> int {
    choose|i: int| 0 <= i < s.len() && (#[trigger] s[i]).vault_id == vid
}

/// Vault identifiers are unique within the tree document list.
pub open spec fn tree_keys_unique(s: Seq<TreeDocV>) -> bool {
    forall|i: int, j: int| 0 <= i < j < s.len() ==> s[i].vault_id != s[j].vault_id
}

/// The persisted tree of a vault: its stored nodes, or the empty tree.
pub open spec fn tree_get(s: Seq<TreeDocV>, vid: Seq<char>) -> Seq<NodeV> {
    if tree_has(s, vid) {
        s[tree_idx(s, vid)].nodes
    } else {
        Seq::empty()
    }
}

/// Replacing or appending the persisted tree of a vault.
pub open spec fn tree_put(s: Seq<TreeDocV>, vid: Seq<char>, nodes: Seq<NodeV>) -> Seq<TreeDocV> {
    if tree_has(s, vid) {
        s.update(tree_idx(s, vid), TreeDocV { vault_id: vid, nodes })
    } else {
        s.push(TreeDocV { vault_id: vid, nodes })
    }
}

/// Deleting the persisted tree of a vault.
pub open spec fn tree_del(s: Seq<TreeDocV>, vid: Seq<char>) -> Seq<TreeDocV> {
    if tree_has(s, vid) {
        s.remove(tree_idx(s, vid))
    } else {
        s
    }
}

/// With unique keys, the tree document found at `j` is the one
/// `tree_idx` denotes.
pub proof fn lemma_tree_idx(s: Seq<TreeDocV>, vid: Seq<char>, j: int)
    requires
        tree_keys_unique(s),
        0 <= j < s.len(),
        s[j].vault_id == vid,
    ensures
        tree_has(s, vid),
        tree_idx(s, vid) == j,
{
    assert(tree_has(s, vid));
    let i = tree_idx(s, vid);
    assert(0 <= i < s.len() && s[i].vault_id == vid);
}

/// One mounted vault directory: the user's real directory at an
/// absolute path, with the reserved metadata subdirectory carved out as
/// an optional persisted tree snapshot and a keyed legacy content
/// collection.
pub struct Mount {
    pub path: String,
    pub entries: Vec<FsEntry>,
    pub snapshot: Option<Vec<Node>>,
    pub meta_contents: Vec<KvDoc>,
}

/// Mathematical form of a mounted vault directory.
#[verifier::ext_equal]
pub ghost struct MountV {
    pub path: Seq<char>,
    pub entries: Seq<FsEntryV>,
    pub snapshot: Option<Seq<NodeV>>,
    pub meta_contents: Seq<(Seq<char>, Seq<char>)>,
}

/// The mathematical form of a mount.
pub open spec fn mount_v(m: Mount) -> MountV {
    MountV {
        path: m.path@,
        entries: entries_view(m.entries@),
        snapshot: match m.snapshot {
            Option::Some(ns) => Option::Some(nodes_v(ns@)),
            Option::None => Option::None,
        },
        meta_contents: kvs_v(m.meta_contents@),
    }
}

/// The mathematical form of the disk.
pub open spec fn mounts_v(s: Seq<Mount>) -> Seq<MountV> {
    s.map_values(|m: Mount| mount_v(m))
}

/// Some mount stands at this absolute path.
pub open spec fn disk_has(ms: Seq<MountV>, path: Seq<char>) -> bool {
    exists|i: int| 0 <= i < ms.len() && (#[trigger] ms[i]).path == path
}

/// The position of the mount at this path.
pub open spec fn disk_idx(ms: Seq<MountV>, path: Seq<char>) -> int {
    choose|i: int| 0 <= i < ms.len() && (#[trigger] ms[i]).path == path
}

/// Mount paths are unique.
pub open spec fn disk_paths_unique(ms: Seq<MountV>) -> bool {
    forall|i: int, j: int| 0 <= i < j < ms.len() ==> ms[i].path != ms[j].path
}

/// With unique paths, the mount found at `j` is the one `disk_idx`
/// denotes.
pub proof fn lemma_disk_idx(ms: Seq<MountV>, path: Seq<char>, j: int)
    requires
        disk_paths_unique(ms),
        0 <= j < ms.len(),
        ms[j].path == path,
    ensures
        disk_has(ms, path),
        disk_idx(ms, path) == j,
{
    assert(disk_has(ms, path));
    let i = disk_idx(ms, path);
    assert(0 <= i < ms.len() && ms[i].path == path);
}

/// The whole storage world.
pub struct World {
    pub vaults: Vec<Vault>,
    pub trees: Vec<TreeDoc>,
    pub contents: Vec<KvDoc>,
    pub workspace_plugins: Vec<KvDoc>,
    pub plugin_records: Vec<KvDoc>,
    pub prefs: Vec<KvDoc>,
    pub docs: Vec<KvDoc>,
    pub disk: Vec<Mount>,
}

/// Well-formedness: unique keys everywhere, and every mount an absolute
/// path with a well-formed directory.
pub open spec fn world_wf(w: World) -> bool {
    &&& registry_ids_unique(vaults_v(w.vaults@))
    &&& tree_keys_unique(trees_v(w.trees@))
    &&& kv_keys_unique(kvs_v(w.contents@))
    &&& kv_keys_unique(kvs_v(w.workspace_plugins@))
    &&& kv_keys_unique(kvs_v(w.plugin_records@))
    &&& kv_keys_unique(kvs_v(w.prefs@))
    &&& kv_keys_unique(kvs_v(w.docs@))
    &&& disk_paths_unique(mounts_v(w.disk@))
    &&& forall|i: int|
        0 <= i < w.disk@.len() ==> absolute_path((#[trigger] mounts_v(w.disk@)[i]).path)
            && dir_v_wf(mounts_v(w.disk@)[i].entries)
    &&& forall|i: int|
        0 <= i < w.disk@.len() ==> kv_keys_unique((#[trigger] mounts_v(w.disk@)[i]).meta_contents)
}

/// An empty world: no vaults, no documents, nothing mounted.
pub fn new_world() -> (r: World)
    ensures
        world_wf(r),
        r.vaults@.len() == 0,
        r.trees@.len() == 0,
        r.contents@.len() == 0,
        r.workspace_plugins@.len() == 0,
        r.plugin_records@.len() == 0,
        r.prefs@.len() == 0,
        r.docs@.len() == 0,
        r.disk@.len() == 0,
{
    World {
        vaults: Vec::new(),
        trees: Vec::new(),
        contents: Vec::new(),
        workspace_plugins: Vec::new(),
        plugin_records: Vec::new(),
        prefs: Vec::new(),
        docs: Vec::new(),
        disk: Vec::new(),
    }
}

/// The position of the descriptor carrying `vault_id`, if any.
#[verifier::loop_isolation(false)]
pub fn find_vault(vaults: &Vec<Vault>, vault_id: &str) -> (r: Option<usize>)
    ensures
        match r {
            Option::Some(j) => j < vaults@.len() && vaults_v(vaults@)[j as int].id == vault_id@,
            Option::None => !has_vault(vaults_v(vaults@), vault_id@),
        },
{
    let n = vaults.len();
    let mut j: usize = 0;
    while j < n
        invariant
            j <= n,
            forall|k: int| 0 <= k < j ==> (#[trigger] vaults_v(vaults@)[k]).id != vault_id@,
        decreases n - j,
    {
        proof {
            assert(vaults_v(vaults@)[j as int] == vault_v(vaults@[j as int]));
        }
        if str_eq(vaults[j].id.as_str(), vault_id) {
            return Option::Some(j);
        }
        j = j + 1;
    }
    Option::None
}

/// The position of the mount at `path`, if any.
#[verifier::loop_isolation(false)]
pub fn find_mount(disk: &Vec<Mount>, path: &str) -> (r: Option<usize>)
    ensures
        match r {
            Option::Some(j) => j < disk@.len() && mounts_v(disk@)[j as int].path == path@,
            Option::None => !disk_has(mounts_v(disk@), path@),
        },
{
    let n = disk.len();
    let mut j: usize = 0;
    while j < n
        invariant
            j <= n,
            forall|k: int| 0 <= k < j ==> (#[trigger] mounts_v(disk@)[k]).path != path@,
        decreases n - j,
    {
        proof {
            assert(mounts_v(disk@)[j as int] == mount_v(disk@[j as int]));
        }
        if str_eq(disk[j].path.as_str(), path) {
            return Option::Some(j);
        }
        j = j + 1;
    }
    Option::None
}

/// The position of the tree document of `vault_id`, if any.
#[verifier::loop_isolation(false)]
pub fn find_tree(trees: &Vec<TreeDoc>, vault_id: &str) -> (r: Option<usize>)
    ensures
        match r {
            Option::Some(j) => j < trees@.len() && trees_v(trees@)[j as int].vault_id == vault_id@,
            Option::None => !tree_has(trees_v(trees@), vault_id@),
        },
{
    let n = trees.len();
    let mut j: usize = 0;
    while j < n
        invariant
            j <= n,
            forall|k: int| 0 <= k < j ==> (#[trigger] trees_v(trees@)[k]).vault_id != vault_id@,
        decreases n - j,
    {
        proof {
            assert(trees_v(trees@)[j as int] == tree_doc_v(trees@[j as int]));
        }
        if str_eq(trees[j].vault_id.as_str(), vault_id) {
            return Option::Some(j);
        }
        j = j + 1;
    }
    Option::None
}

/// The position of the record carrying `key`, if any.
#[verifier::loop_isolation(false)]
pub fn kv_find(v: &Vec<KvDoc>, key: &str) -> (r: Option<usize>)
    ensures
        match r {
            Option::Some(j) => j < v@.len() && kvs_v(v@)[j as int].0 == key@,
            Option::None => !kv_has(kvs_v(v@), key@),
        },
{
    let n = v.len();
    let mut j: usize = 0;
    while j < n
        invariant
            j <= n,
            forall|k: int| 0 <= k < j ==> (#[trigger] kvs_v(v@)[k]).0 != key@,
        decreases n - j,
    {
        proof {
            assert(kvs_v(v@)[j as int] == kv_v(v@[j as int]));
        }
        if str_eq(v[j].key.as_str(), key) {
            return Option::Some(j);
        }
        j = j + 1;
    }
    Option::None
}

/// Reads a keyed document: its raw text, or empty text when absent.
pub fn kv_read(v: &Vec<KvDoc>, key: &str) -> (r: String)
    requires
        kv_keys_unique(kvs_v(v@)),
    ensures
        r@ == kv_get(kvs_v(v@), key@),
{
    match kv_find(v, key) {
        Option::Some(j) => {
            proof {
                lemma_kv_idx(kvs_v(v@), key@, j as int);
            }
            v[j].text.clone()
        },
        Option::None => String::new(),
    }
}

/// Writes a keyed document, replacing a record with the same key.
pub fn kv_write(v: &mut Vec<KvDoc>, key: &str, text: &str)
    requires
        kv_keys_unique(kvs_v(old(v)@)),
    ensures
        kvs_v(final (v)@) == kv_put(kvs_v(old(v)@), key@, text@),
        kv_keys_unique(kvs_v(final (v)@)),
{
    let ghost s0 = kvs_v(old(v)@);
    match kv_find(v, key) {
        Option::Some(j) => {
            proof {
                lemma_kv_idx(s0, key@, j as int);
            }
            let ghost v0 = v@;
            let old_doc = v.remove(j);
            let nd = KvDoc { key: old_doc.key, text: text.to_owned() };
            v.insert(j, nd);
            proof {
                assert(old_doc == v0[j as int]);
                assert(v@ =~= v0.update(j as int, nd));
                assert forall|k: int| 0 <= k < v@.len() implies kvs_v(v@)[k] == s0.update(
                    j as int,
                    (key@, text@),
                )[k] by {
                    assert(kvs_v(v@)[k] == kv_v(v@[k]));
                    if k != j {
                        assert(v@[k] == v0[k]);
                        assert(s0[k] == kv_v(v0[k]));
                    }
                }
                assert(kvs_v(v@) =~= s0.update(j as int, (key@, text@)));
                assert forall|a: int, b: int|
                    0 <= a < b < kvs_v(v@).len() implies kvs_v(v@)[a].0 != kvs_v(v@)[b].0 by {
                    assert(kvs_v(v@)[a].0 == s0[a].0 && kvs_v(v@)[b].0 == s0[b].0);
                }
            }
        },
        Option::None => {
            let ghost v0 = v@;
            let nd = KvDoc { key: key.to_owned(), text: text.to_owned() };
            v.push(nd);
            proof {
                assert(v@ =~= v0.push(nd));
                assert forall|k: int| 0 <= k < v@.len() implies kvs_v(v@)[k] == s0.push(
                    (key@, text@),
                )[k] by {
                    assert(kvs_v(v@)[k] == kv_v(v@[k]));
                    if k < v0.len() {
                        assert(v@[k] == v0[k]);
                        assert(s0[k] == kv_v(v0[k]));
                    } else {
                        assert(v@[k] == nd);
                    }
                }
                assert(kvs_v(v@) =~= s0.push((key@, text@)));
                assert forall|a: int, b: int|
                    0 <= a < b < kvs_v(v@).len() implies kvs_v(v@)[a].0 != kvs_v(v@)[b].0 by {
                    if b < s0.len() {
                        assert(kvs_v(v@)[a].0 == s0[a].0 && kvs_v(v@)[b].0 == s0[b].0);
                    } else {
                        assert(kvs_v(v@)[a].0 == s0[a].0);
                        assert(kvs_v(v@)[b].0 == key@);
                    }
                }
            }
        },
    }
}

/// Removes a keyed document; absent keys are left in peace.
pub fn kv_remove(v: &mut Vec<KvDoc>, key: &str)
    requires
        kv_keys_unique(kvs_v(old(v)@)),
    ensures
        kvs_v(final (v)@) == kv_del(kvs_v(old(v)@), key@),
        kv_keys_unique(kvs_v(final (v)@)),
{
    let ghost s0 = kvs_v(old(v)@);
    match kv_find(v, key) {
        Option::Some(j) => {
            proof {
                lemma_kv_idx(s0, key@, j as int);
            }
            let ghost v0 = v@;
            let _ = v.remove(j);
            proof {
                assert(v@ =~= v0.remove(j as int));
                assert forall|k: int| 0 <= k < v@.len() implies kvs_v(v@)[k] == s0.remove(
                    j as int,
                )[k] by {
                    assert(kvs_v(v@)[k] == kv_v(v@[k]));
                    if k < j {
                        assert(v@[k] == v0[k]);
                        assert(s0[k] == kv_v(v0[k]));
                    } else {
                        assert(v@[k] == v0[k + 1]);
                        assert(s0[k + 1] == kv_v(v0[k + 1]));
                    }
                }
                assert(kvs_v(v@) =~= s0.remove(j as int));
                assert forall|a: int, b: int|
                    0 <= a < b < kvs_v(v@).len() implies kvs_v(v@)[a].0 != kvs_v(v@)[b].0 by {
                    let ra = if a < j {
                        a
                    } else {
                        a + 1
                    };
                    let rb = if b < j {
                        b
                    } else {
                        b + 1
                    };
                    assert(kvs_v(v@)[a].0 == s0[ra].0 && kvs_v(v@)[b].0 == s0[rb].0);
                }
            }
        },
        Option::None => {},
    }
}


/// The registry: every vault descriptor, in order; empty when no vault
/// exists yet.
pub fn get_vaults(w: &World) -> (r: &Vec<Vault>)
    ensures
        r@ == w.vaults@,
{
    &w.vaults
}

/// Whether all descriptor identifiers are distinct.
#[verifier::loop_isolation(false)]
pub fn vault_ids_unique_exec(vs: &Vec<Vault>) -> (r: bool)
    ensures
        r == registry_ids_unique(vaults_v(vs@)),
{
    let n = vs.len();
    let mut i: usize = 0;
    while i < n
        invariant
            i <= n,
            forall|a: int, b: int|
                0 <= a < b < n && a < i ==> (#[trigger] vaults_v(vs@)[a]).id != (#[trigger] vaults_v(
                    vs@,
                )[b]).id,
        decreases n - i,
    {
        let mut j: usize = i + 1;
        while j < n
            invariant
                i < j <= n,
                forall|b: int| i < b < j ==> (#[trigger] vaults_v(vs@)[b]).id != vaults_v(
                    vs@,
                )[i as int].id,
            decreases n - j,
        {
            proof {
                assert(vaults_v(vs@)[i as int] == vault_v(vs@[i as int]));
                assert(vaults_v(vs@)[j as int] == vault_v(vs@[j as int]));
            }
            if str_eq(vs[i].id.as_str(), vs[j].id.as_str()) {
                return false;
            }
            j = j + 1;
        }
        i = i + 1;
    }
    true
}

/// Replaces the registry wholesale. A list with a repeated identifier is
/// refused, since identifiers must stay unique.
pub fn save_vaults(w: &mut World, vaults: Vec<Vault>) -> (r: Result<(), StoreError>)
    requires
        world_wf(*old(w)),
    ensures
        world_wf(*final (w)),
        match r {
            Result::Ok(()) => registry_ids_unique(vaults_v(vaults@)) && final (w).vaults@
                == vaults@ && final (w).trees@ == old(w).trees@ && final (w).contents@ == old(w).contents@ && final (w).workspace_plugins@ == old(w).workspace_plugins@ && final(w).plugin_records@ == old(w).plugin_records@ && final (w).prefs@ == old(w).prefs@
                && final (w).docs@ == old(w).docs@ && final (w).disk@ == old(w).disk@,
            Result::Err(e) => e == StoreError::DuplicateId && !registry_ids_unique(vaults_v(vaults@))
                && *final (w) == *old(w),
        },
{
    if !vault_ids_unique_exec(&vaults) {
        return Result::Err(StoreError::DuplicateId);
    }
    w.vaults = vaults;
    Result::Ok(())
}

/// The descriptor of a vault, or nothing when the identifier is unknown.
pub fn resolve_vault<'a>(w: &'a World, vault_id: &str) -> (r: Option<&'a Vault>)
    requires
        world_wf(*w),
    ensures
        match r {
            Option::Some(v) => has_vault(vaults_v(w.vaults@), vault_id@) && vault_v(*v) == vaults_v(
                w.vaults@,
            )[vault_idx(vaults_v(w.vaults@), vault_id@)],
            Option::None => !has_vault(vaults_v(w.vaults@), vault_id@),
        },
{
    match find_vault(&w.vaults, vault_id) {
        Option::Some(j) => {
            proof {
                lemma_vault_idx(vaults_v(w.vaults@), vault_id@, j as int);
                assert(vaults_v(w.vaults@)[j as int] == vault_v(w.vaults@[j as int]));
            }
            Option::Some(&w.vaults[j])
        },
        Option::None => Option::None,
    }
}

/// Appends a descriptor under a caller-supplied identifier; an
/// identifier already present is refused. Nothing on the modelled disk
/// is touched: the tree of a path-backed vault is derived lazily.
pub fn create_vault_with_id(
    w: &mut World,
    id: String,
    name: &str,
    path: &str,
    created_at: i64,
) -> (r: Result<String, StoreError>)
    requires
        world_wf(*old(w)),
    ensures
        world_wf(*final (w)),
        final (w).trees@ == old(w).trees@,
        final (w).contents@ == old(w).contents@,
        final (w).workspace_plugins@ == old(w).workspace_plugins@,
        final (w).plugin_records@ == old(w).plugin_records@,
        final (w).prefs@ == old(w).prefs@,
        final (w).docs@ == old(w).docs@,
        final (w).disk@ == old(w).disk@,
        match r {
            Result::Ok(rid) => rid@ == id@ && !has_vault(vaults_v(old(w).vaults@), id@)
                && vaults_v(final (w).vaults@) == vaults_v(old(w).vaults@).push(
                VaultV {
                    id: id@,
                    name: name@,
                    path: Option::Some(path@),
                    created_at: created_at,
                },
            ),
            Result::Err(e) => e == StoreError::DuplicateId && has_vault(
                vaults_v(old(w).vaults@),
                id@,
            ) && *final (w) == *old(w),
        },
{
    let ghost s0 = vaults_v(old(w).vaults@);
    match find_vault(&w.vaults, id.as_str()) {
        Option::Some(j) => {
            proof {
                assert(has_vault(s0, id@));
            }
            Result::Err(StoreError::DuplicateId)
        },
        Option::None => {
            let ghost v0 = w.vaults@;
            let nv = Vault {
                id: id.clone(),
                name: name.to_owned(),
                path: Option::Some(path.to_owned()),
                created_at,
            };
            w.vaults.push(nv);
            proof {
                assert(w.vaults@ =~= v0.push(nv));
                let nvv = VaultV {
                    id: id@,
                    name: name@,
                    path: Option::Some(path@),
                    created_at: created_at,
                };
                assert forall|k: int|
                    0 <= k < w.vaults@.len() implies vaults_v(w.vaults@)[k] == s0.push(nvv)[k] by {
                    assert(vaults_v(w.vaults@)[k] == vault_v(w.vaults@[k]));
                    if k < v0.len() {
                        assert(w.vaults@[k] == v0[k]);
                        assert(s0[k] == vault_v(v0[k]));
                    } else {
                        assert(w.vaults@[k] == nv);
                        assert(vault_v(nv) =~= nvv);
                    }
                }
                assert(vaults_v(w.vaults@) =~= s0.push(nvv));
                assert forall|a: int, b: int|
                    0 <= a < b < vaults_v(w.vaults@).len() implies vaults_v(w.vaults@)[a].id
                    != vaults_v(w.vaults@)[b].id by {
                    if b < s0.len() {
                        assert(vaults_v(w.vaults@)[a].id == s0[a].id);
                        assert(vaults_v(w.vaults@)[b].id == s0[b].id);
                    } else {
                        assert(vaults_v(w.vaults@)[a].id == s0[a].id);
                        assert(vaults_v(w.vaults@)[b].id == id@);
                    }
                }
            }
            Result::Ok(id)
        },
    }
}

/// Mounts an empty directory at an absolute path, modelling a real
/// directory that newly exists on disk.
pub fn add_mount(w: &mut World, path: &str) -> (r: Result<(), StoreError>)
    requires
        world_wf(*old(w)),
    ensures
        world_wf(*final (w)),
        match r {
            Result::Ok(()) => absolute_path(path@) && !disk_has(mounts_v(old(w).disk@), path@)
                && mounts_v(final (w).disk@) == mounts_v(old(w).disk@).push(
                MountV {
                    path: path@,
                    entries: Seq::empty(),
                    snapshot: Option::None,
                    meta_contents: Seq::empty(),
                },
            ) && final (w).vaults@ == old(w).vaults@ && final (w).trees@ == old(w).trees@ && final(w).contents@ == old(w).contents@ && final (w).workspace_plugins@ == old(w).workspace_plugins@ && final (w).plugin_records@ == old(w).plugin_records@ && final(w).prefs@ == old(w).prefs@ && final (w).docs@ == old(w).docs@,
            Result::Err(e) => *final (w) == *old(w) && ((e == StoreError::InvalidPath
                && !absolute_path(path@)) || (e == StoreError::DestinationExists && absolute_path(
                path@,
            ) && disk_has(mounts_v(old(w).disk@), path@))),
        },
{
    if !is_absolute_path(path) {
        return Result::Err(StoreError::InvalidPath);
    }
    match find_mount(&w.disk, path) {
        Option::Some(j) => {
            proof {
                assert(disk_has(mounts_v(w.disk@), path@));
            }
            Result::Err(StoreError::DestinationExists)
        },
        Option::None => {
            let ghost d0 = w.disk@;
            let ghost s0 = mounts_v(d0);
            let nm = Mount {
                path: path.to_owned(),
                entries: Vec::new(),
                snapshot: Option::None,
                meta_contents: Vec::new(),
            };
            w.disk.push(nm);
            proof {
                assert(w.disk@ =~= d0.push(nm));
                let nmv = MountV {
                    path: path@,
                    entries: Seq::empty(),
                    snapshot: Option::None,
                    meta_contents: Seq::empty(),
                };
                crate::fsmodel::lemma_entries_view(nm.entries@);
                assert(entries_view(nm.entries@) =~= Seq::<FsEntryV>::empty());
                assert forall|k: int|
                    0 <= k < w.disk@.len() implies mounts_v(w.disk@)[k] == s0.push(nmv)[k] by {
                    assert(mounts_v(w.disk@)[k] == mount_v(w.disk@[k]));
                    if k < d0.len() {
                        assert(w.disk@[k] == d0[k]);
                        assert(s0[k] == mount_v(d0[k]));
                    } else {
                        assert(w.disk@[k] == nm);
                        assert(mount_v(nm) =~= nmv);
                    }
                }
                assert(mounts_v(w.disk@) =~= s0.push(nmv));
                crate::fsmodel::lemma_wf_empty();
                assert forall|a: int, b: int|
                    0 <= a < b < mounts_v(w.disk@).len() implies mounts_v(w.disk@)[a].path
                    != mounts_v(w.disk@)[b].path by {
                    if b < s0.len() {
                        assert(mounts_v(w.disk@)[a].path == s0[a].path);
                        assert(mounts_v(w.disk@)[b].path == s0[b].path);
                    } else {
                        assert(mounts_v(w.disk@)[a].path == s0[a].path);
                        assert(mounts_v(w.disk@)[b].path == path@);
                    }
                }
            }
            Result::Ok(())
        },
    }
}

/// Removes the derived state of a vault: its persisted tree document and
/// its workspace plugin list. The registry entry stays, and nothing on
/// the modelled disk is touched: a path-backed vault's real directory is
/// never deleted or modified here.
pub fn delete_vault(w: &mut World, vault_id: &str)
    requires
        world_wf(*old(w)),
    ensures
        world_wf(*final (w)),
        trees_v(final (w).trees@) == tree_del(trees_v(old(w).trees@), vault_id@),
        kvs_v(final (w).workspace_plugins@) == kv_del(
            kvs_v(old(w).workspace_plugins@),
            vault_id@,
        ),
        final (w).vaults@ == old(w).vaults@,
        final (w).contents@ == old(w).contents@,
        final (w).plugin_records@ == old(w).plugin_records@,
        final (w).prefs@ == old(w).prefs@,
        final (w).docs@ == old(w).docs@,
        final (w).disk@ == old(w).disk@,
{
    let ghost s0 = trees_v(old(w).trees@);
    match find_tree(&w.trees, vault_id) {
        Option::Some(j) => {
            proof {
                lemma_tree_idx(s0, vault_id@, j as int);
            }
            let ghost t0 = w.trees@;
            let _ = w.trees.remove(j);
            proof {
                assert(w.trees@ =~= t0.remove(j as int));
                assert forall|k: int| 0 <= k < w.trees@.len() implies trees_v(w.trees@)[k]
                    == s0.remove(j as int)[k] by {
                    assert(trees_v(w.trees@)[k] == tree_doc_v(w.trees@[k]));
                    if k < j {
                        assert(w.trees@[k] == t0[k]);
                        assert(s0[k] == tree_doc_v(t0[k]));
                    } else {
                        assert(w.trees@[k] == t0[k + 1]);
                        assert(s0[k + 1] == tree_doc_v(t0[k + 1]));
                    }
                }
                assert(trees_v(w.trees@) =~= s0.remove(j as int));
                assert forall|a: int, b: int|
                    0 <= a < b < trees_v(w.trees@).len() implies trees_v(w.trees@)[a].vault_id
                    != trees_v(w.trees@)[b].vault_id by {
                    let ra = if a < j {
                        a
                    } else {
                        a + 1
                    };
                    let rb = if b < j {
                        b
                    } else {
                        b + 1
                    };
                    assert(trees_v(w.trees@)[a].vault_id == s0[ra].vault_id);
                    assert(trees_v(w.trees@)[b].vault_id == s0[rb].vault_id);
                }
            }
        },
        Option::None => {},
    }
    kv_remove(&mut w.workspace_plugins, vault_id);
}

/// Reads an application-managed JSON document by name; an absent
/// document reads as empty text.
pub fn read_json_file(w: &World, path: &str) -> (r: String)
    requires
        world_wf(*w),
    ensures
        r@ == kv_get(kvs_v(w.docs@), path@),
{
    kv_read(&w.docs, path)
}

/// Writes an application-managed JSON document by name, overwriting.
pub fn write_json_file(w: &mut World, path: &str, json_str: &str)
    requires
        world_wf(*old(w)),
    ensures
        world_wf(*final (w)),
        kvs_v(final (w).docs@) == kv_put(kvs_v(old(w).docs@), path@, json_str@),
        final (w).vaults@ == old(w).vaults@,
        final (w).trees@ == old(w).trees@,
        final (w).contents@ == old(w).contents@,
        final (w).workspace_plugins@ == old(w).workspace_plugins@,
        final (w).plugin_records@ == old(w).plugin_records@,
        final (w).prefs@ == old(w).prefs@,
        final (w).disk@ == old(w).disk@,
{
    kv_write(&mut w.docs, path, json_str);
}

/// The stored list of globally enabled plugin identifiers, as raw JSON.
pub fn get_global_plugin_ids(w: &World) -> (r: String)
    requires
        world_wf(*w),
    ensures
        r@ == kv_get(kvs_v(w.docs@), "global_plugins.json"@),
{
    read_json_file(w, "global_plugins.json")
}

/// Stores the list of globally enabled plugin identifiers, as raw JSON.
pub fn save_global_plugin_ids(w: &mut World, json: &str)
    requires
        world_wf(*old(w)),
    ensures
        world_wf(*final (w)),
        kvs_v(final (w).docs@) == kv_put(kvs_v(old(w).docs@), "global_plugins.json"@, json@),
        final (w).vaults@ == old(w).vaults@,
        final (w).trees@ == old(w).trees@,
        final (w).contents@ == old(w).contents@,
        final (w).workspace_plugins@ == old(w).workspace_plugins@,
        final (w).plugin_records@ == old(w).plugin_records@,
        final (w).prefs@ == old(w).prefs@,
        final (w).disk@ == old(w).disk@,
{
    write_json_file(w, "global_plugins.json", json);
}

/// The per-vault workspace plugin list, as raw JSON.
pub fn get_workspace_plugin_ids(w: &World, vault_id: &str) -> (r: String)
    requires
        world_wf(*w),
    ensures
        r@ == kv_get(kvs_v(w.workspace_plugins@), vault_id@),
{
    kv_read(&w.workspace_plugins, vault_id)
}

/// Stores the per-vault workspace plugin list, as raw JSON.
pub fn save_workspace_plugin_ids(w: &mut World, vault_id: &str, json: &str)
    requires
        world_wf(*old(w)),
    ensures
        world_wf(*final (w)),
        kvs_v(final (w).workspace_plugins@) == kv_put(
            kvs_v(old(w).workspace_plugins@),
            vault_id@,
            json@,
        ),
        final (w).vaults@ == old(w).vaults@,
        final (w).trees@ == old(w).trees@,
        final (w).contents@ == old(w).contents@,
        final (w).plugin_records@ == old(w).plugin_records@,
        final (w).prefs@ == old(w).prefs@,
        final (w).docs@ == old(w).docs@,
        final (w).disk@ == old(w).disk@,
{
    kv_write(&mut w.workspace_plugins, vault_id, json);
}

/// Every installed remote plugin record, keyed by plugin identifier.
pub fn get_installed_remote_plugins(w: &World) -> (r: &Vec<KvDoc>)
    ensures
        r@ == w.plugin_records@,
{
    &w.plugin_records
}

/// Stores one installed remote plugin record: the record with the same
/// identifier is replaced, otherwise the record is appended.
pub fn save_installed_remote_plugin(w: &mut World, plugin_id: &str, plugin_json: &str)
    requires
        world_wf(*old(w)),
    ensures
        world_wf(*final (w)),
        kvs_v(final (w).plugin_records@) == kv_put(
            kvs_v(old(w).plugin_records@),
            plugin_id@,
            plugin_json@,
        ),
        final (w).vaults@ == old(w).vaults@,
        final (w).trees@ == old(w).trees@,
        final (w).contents@ == old(w).contents@,
        final (w).workspace_plugins@ == old(w).workspace_plugins@,
        final (w).prefs@ == old(w).prefs@,
        final (w).docs@ == old(w).docs@,
        final (w).disk@ == old(w).disk@,
{
    kv_write(&mut w.plugin_records, plugin_id, plugin_json);
}

/// Removes the installed remote plugin record with this identifier.
pub fn remove_installed_remote_plugin(w: &mut World, plugin_id: &str)
    requires
        world_wf(*old(w)),
    ensures
        world_wf(*final (w)),
        kvs_v(final (w).plugin_records@) == kv_del(kvs_v(old(w).plugin_records@), plugin_id@),
        final (w).vaults@ == old(w).vaults@,
        final (w).trees@ == old(w).trees@,
        final (w).contents@ == old(w).contents@,
        final (w).workspace_plugins@ == old(w).workspace_plugins@,
        final (w).prefs@ == old(w).prefs@,
        final (w).docs@ == old(w).docs@,
        final (w).disk@ == old(w).disk@,
{
    kv_remove(&mut w.plugin_records, plugin_id);
}

/// A stored preference value; an unset key reads as empty text.
pub fn get_preference(w: &World, key: &str) -> (r: String)
    requires
        world_wf(*w),
    ensures
        r@ == kv_get(kvs_v(w.prefs@), key@),
{
    kv_read(&w.prefs, key)
}

/// Stores one preference value under its key.
pub fn save_preference(w: &mut World, key: &str, value: &str)
    requires
        world_wf(*old(w)),
    ensures
        world_wf(*final (w)),
        kvs_v(final (w).prefs@) == kv_put(kvs_v(old(w).prefs@), key@, value@),
        final (w).vaults@ == old(w).vaults@,
        final (w).trees@ == old(w).trees@,
        final (w).contents@ == old(w).contents@,
        final (w).workspace_plugins@ == old(w).workspace_plugins@,
        final (w).plugin_records@ == old(w).plugin_records@,
        final (w).docs@ == old(w).docs@,
        final (w).disk@ == old(w).disk@,
{
    kv_write(&mut w.prefs, key, value);
}

/// The stored window-dock configuration, as raw JSON.
pub fn get_ai_dock_config(w: &World) -> (r: String)
    requires
        world_wf(*w),
    ensures
        r@ == kv_get(kvs_v(w.docs@), "ai_dock.json"@),
{
    read_json_file(w, "ai_dock.json")
}

/// Stores the window-dock configuration, as raw JSON.
pub fn save_ai_dock_config(w: &mut World, json: &str)
    requires
        world_wf(*old(w)),
    ensures
        world_wf(*final (w)),
        kvs_v(final (w).docs@) == kv_put(kvs_v(old(w).docs@), "ai_dock.json"@, json@),
        final (w).vaults@ == old(w).vaults@,
        final (w).trees@ == old(w).trees@,
        final (w).contents@ == old(w).contents@,
        final (w).workspace_plugins@ == old(w).workspace_plugins@,
        final (w).plugin_records@ == old(w).plugin_records@,
        final (w).prefs@ == old(w).prefs@,
        final (w).disk@ == old(w).disk@,
{
    write_json_file(w, "ai_dock.json", json);
}

} // verus!

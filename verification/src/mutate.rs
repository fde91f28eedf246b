//! Node mutator: create, delete and rename against the backing
//! directory of a path-backed vault, recomputing the node identifier.
//!
//! Mutation needs a vault with an absolute backing path whose directory
//! is currently present — app-managed vaults are pure documents and are
//! rewritten wholesale by the tree resolver instead.
use crate::codec::decode_node_id;
use crate::codec::encode_node_id;
use crate::codec::encoded;
use crate::codec::spec_decode;
use crate::errors::StoreError;
use crate::fsmodel::FsEntryV;
use crate::fsmodel::lemma_make_dir_wf;
use crate::fsmodel::lemma_remove_at_wf;
use crate::fsmodel::lemma_rename_at_wf;
use crate::fsmodel::lemma_write_file_wf;
use crate::fsmodel::make_dir;
use crate::fsmodel::remove_at;
use crate::fsmodel::rename_at;
use crate::fsmodel::write_file;
use crate::fsops::entries_make_dir;
use crate::fsops::entries_remove_at;
use crate::fsops::entries_rename_at;
use crate::fsops::entries_write_file;
use crate::node::NodeKind;
use crate::node::opt_view;
use crate::paths::joined;
use crate::paths::join_path;
use crate::paths::path_ok;
use crate::paths::seg_ok;
use crate::paths::segments_ok;
use crate::paths::segs_views;
use crate::paths::split_of;
use crate::paths::split_path;
use crate::resolver::spec_backing_of;
use crate::text::find_char;
use crate::text::is_absolute_path;
use crate::world::Mount;
use crate::world::MountV;
use crate::world::World;
use crate::world::disk_has;
use crate::world::disk_idx;
use crate::world::find_mount;
use crate::world::find_vault;
use crate::world::lemma_disk_idx;
use crate::world::lemma_vault_idx;
use crate::world::mount_v;
use crate::world::mounts_v;
use crate::world::vault_v;
use crate::world::vaults_v;
use crate::world::world_wf;
use vstd::prelude::*;

verus! {

/// The relative path a node identifier addresses: the part after the
/// first colon, or the whole identifier when it carries no vault
/// reference.
pub open spec fn rel_of_id(id: Seq<char>) -> Seq<char> {
    match spec_decode(id) {
        Option::Some(d) => d.1,
        Option::None => id,
    }
}

/// The target path of a creation: the parent identifier's relative path
/// split at its separators, with the new name appended; just the name
/// at the vault root.
pub open spec fn target_segs_spec(parent: Option<Seq<char>>, name: Seq<char>) -> Seq<Seq<char>> {
    match parent {
        Option::None => seq![name],
        Option::Some(pid) => split_of(rel_of_id(pid)).push(name),
    }
}

/// Whether `name` is a usable entry name.
fn seg_ok_exec(name: &str) -> (r: bool)
    ensures
        r == seg_ok(name@),
{
    if name.unicode_len() == 0 {
        return false;
    }
    match find_char(name, '/') {
        Option::Some(_) => false,
        Option::None => true,
    }
}

/// Creates a node in a path-backed vault: a folder (idempotently, with
/// missing directories created along the way) or an empty file, at the
/// parent's path joined with `name`, and returns the freshly encoded
/// identifier of the created entry.
pub fn create_node_cmd(
    w: &mut World,
    vault_id: &str,
    parent_id: Option<String>,
    name: &str,
    kind: NodeKind,
) -> (r: Result<String, StoreError>)
    requires
        world_wf(*old(w)),
    ensures
        world_wf(*final (w)),
        final (w).vaults@ == old(w).vaults@,
        final (w).trees@ == old(w).trees@,
        final (w).contents@ == old(w).contents@,
        final (w).workspace_plugins@ == old(w).workspace_plugins@,
        final (w).plugin_records@ == old(w).plugin_records@,
        final (w).prefs@ == old(w).prefs@,
        final (w).docs@ == old(w).docs@,
        ({
            let target = target_segs_spec(opt_view(parent_id), name@);
            let backing = spec_backing_of(*old(w), vault_id@);
            match r {
                Result::Ok(id) => {
                    &&& backing is Some
                    &&& disk_has(mounts_v(old(w).disk@), backing->0)
                    &&& path_ok(target)
                    &&& ({
                        let mi = disk_idx(mounts_v(old(w).disk@), backing->0);
                        let op = if kind is Folder {
                            make_dir(mounts_v(old(w).disk@)[mi].entries, target)
                        } else {
                            write_file(mounts_v(old(w).disk@)[mi].entries, target, Seq::empty())
                        };
                        op is Ok && mounts_v(final (w).disk@) == mounts_v(old(w).disk@).update(
                            mi,
                            MountV { entries: op->Ok_0, ..mounts_v(old(w).disk@)[mi] },
                        )
                    })
                    &&& id@ == encoded(vault_id@, joined(target))
                },
                Result::Err(e) => mounts_v(final (w).disk@) == mounts_v(old(w).disk@) && (if backing
                    is None {
                    e == StoreError::VaultNotFound
                } else if !disk_has(mounts_v(old(w).disk@), backing->0) {
                    e == StoreError::VaultPathMissing
                } else if !path_ok(target) {
                    e == StoreError::InvalidPath
                } else {
                    let mi = disk_idx(mounts_v(old(w).disk@), backing->0);
                    let op = if kind is Folder {
                        make_dir(mounts_v(old(w).disk@)[mi].entries, target)
                    } else {
                        write_file(mounts_v(old(w).disk@)[mi].entries, target, Seq::empty())
                    };
                    op is Err && e == op->Err_0
                }),
            }
        }),
{
    let m = match resolve_mount(w, vault_id) {
        Result::Ok(m) => m,
        Result::Err(e) => {
            return Result::Err(e);
        },
    };
    let mut segs: Vec<String> = match &parent_id {
        Option::Some(pid) => {
            match decode_node_id(pid.as_str()) {
                Option::Some((_vid_part, rel)) => split_path(rel.as_str()),
                Option::None => split_path(pid.as_str()),
            }
        },
        Option::None => Vec::new(),
    };
    segs.push(name.to_owned());
    proof {
        assert(segs_views(segs@) =~= target_segs_spec(opt_view(parent_id), name@));
    }
    if !segments_ok(&segs) {
        return Result::Err(StoreError::InvalidPath);
    }
    let ghost d0 = w.disk@;
    let ghost s0 = mounts_v(d0);
    let ghost target = segs_views(segs@);
    let mount = w.disk.remove(m);
    proof {
        assert(mount == d0[m as int]);
        assert(segs_views(segs@).skip(0) =~= segs_views(segs@));
    }
    let folder = match kind {
        NodeKind::Folder => true,
        _ => false,
    };
    let (new_entries, st) = if folder {
        entries_make_dir(mount.entries, &segs, 0)
    } else {
        entries_write_file(mount.entries, &segs, 0, "")
    };
    let nm = Mount {
        path: mount.path,
        entries: new_entries,
        snapshot: mount.snapshot,
        meta_contents: mount.meta_contents,
    };
    w.disk.insert(m, nm);
    proof {
        reveal_strlit("");
        assert(""@ =~= Seq::<char>::empty());
        assert(w.disk@ =~= d0.update(m as int, nm));
        let nmv = MountV { entries: mount_v(nm).entries, ..s0[m as int] };
        assert(mount_v(nm) =~= nmv);
        assert forall|k: int| 0 <= k < w.disk@.len() implies mounts_v(w.disk@)[k] == s0.update(
            m as int,
            nmv,
        )[k] by {
            assert(mounts_v(w.disk@)[k] == mount_v(w.disk@[k]));
            if k != m {
                assert(w.disk@[k] == d0[k]);
                assert(s0[k] == mount_v(d0[k]));
            }
        }
        assert(mounts_v(w.disk@) =~= s0.update(m as int, nmv));
        assert forall|a: int, b: int|
            0 <= a < b < mounts_v(w.disk@).len() implies mounts_v(w.disk@)[a].path != mounts_v(
            w.disk@,
        )[b].path by {
            assert(mounts_v(w.disk@)[a].path == s0[a].path);
            assert(mounts_v(w.disk@)[b].path == s0[b].path);
        }
        if st is Ok {
            if folder {
                lemma_make_dir_wf(s0[m as int].entries, target);
            } else {
                lemma_write_file_wf(s0[m as int].entries, target, Seq::empty());
            }
        } else {
            assert(mounts_v(w.disk@) =~= s0);
        }
    }
    match st {
        Result::Ok(()) => {
            let rel = join_path(&segs);
            Result::Ok(encode_node_id(vault_id, rel.as_str()))
        },
        Result::Err(e) => Result::Err(e),
    }
}

/// Resolves a vault to the mount of its absolute backing directory, as
/// mutation requires.
fn resolve_mount(w: &World, vault_id: &str) -> (r: Result<usize, StoreError>)
    requires
        world_wf(*w),
    ensures
        match r {
            Result::Ok(m) => spec_backing_of(*w, vault_id@) is Some && disk_has(
                mounts_v(w.disk@),
                spec_backing_of(*w, vault_id@)->0,
            ) && m < w.disk@.len() && m as int == disk_idx(
                mounts_v(w.disk@),
                spec_backing_of(*w, vault_id@)->0,
            ),
            Result::Err(e) => if spec_backing_of(*w, vault_id@) is None {
                e == StoreError::VaultNotFound
            } else {
                e == StoreError::VaultPathMissing && !disk_has(
                    mounts_v(w.disk@),
                    spec_backing_of(*w, vault_id@)->0,
                )
            },
        },
{
    match find_vault(&w.vaults, vault_id) {
        Option::Some(j) => {
            proof {
                lemma_vault_idx(vaults_v(w.vaults@), vault_id@, j as int);
                assert(vaults_v(w.vaults@)[j as int] == vault_v(w.vaults@[j as int]));
            }
            match &w.vaults[j].path {
                Option::Some(p) => {
                    if is_absolute_path(p.as_str()) {
                        match find_mount(&w.disk, p.as_str()) {
                            Option::Some(m) => {
                                proof {
                                    lemma_disk_idx(mounts_v(w.disk@), p@, m as int);
                                }
                                Result::Ok(m)
                            },
                            Option::None => Result::Err(StoreError::VaultPathMissing),
                        }
                    } else {
                        Result::Err(StoreError::VaultNotFound)
                    }
                },
                Option::None => Result::Err(StoreError::VaultNotFound),
            }
        },
        Option::None => Result::Err(StoreError::VaultNotFound),
    }
}

/// Deletes the entry a node identifier addresses, a single file or a
/// directory with everything below it. Immediate and irreversible; a
/// path that addresses nothing is an error.
pub fn delete_node_cmd(w: &mut World, vault_id: &str, id: &str) -> (r: Result<(), StoreError>)
    requires
        world_wf(*old(w)),
    ensures
        world_wf(*final (w)),
        final (w).vaults@ == old(w).vaults@,
        final (w).trees@ == old(w).trees@,
        final (w).contents@ == old(w).contents@,
        final (w).workspace_plugins@ == old(w).workspace_plugins@,
        final (w).plugin_records@ == old(w).plugin_records@,
        final (w).prefs@ == old(w).prefs@,
        final (w).docs@ == old(w).docs@,
        ({
            let target = split_of(rel_of_id(id@));
            let backing = spec_backing_of(*old(w), vault_id@);
            match r {
                Result::Ok(()) => {
                    &&& backing is Some
                    &&& disk_has(mounts_v(old(w).disk@), backing->0)
                    &&& ({
                        let mi = disk_idx(mounts_v(old(w).disk@), backing->0);
                        let op = remove_at(mounts_v(old(w).disk@)[mi].entries, target);
                        op is Ok && mounts_v(final (w).disk@) == mounts_v(old(w).disk@).update(
                            mi,
                            MountV { entries: op->Ok_0, ..mounts_v(old(w).disk@)[mi] },
                        )
                    })
                },
                Result::Err(e) => mounts_v(final (w).disk@) == mounts_v(old(w).disk@) && (if backing
                    is None {
                    e == StoreError::VaultNotFound
                } else if !disk_has(mounts_v(old(w).disk@), backing->0) {
                    e == StoreError::VaultPathMissing
                } else {
                    let mi = disk_idx(mounts_v(old(w).disk@), backing->0);
                    let op = remove_at(mounts_v(old(w).disk@)[mi].entries, target);
                    op is Err && e == op->Err_0
                }),
            }
        }),
{
    let m = match resolve_mount(w, vault_id) {
        Result::Ok(m) => m,
        Result::Err(e) => {
            return Result::Err(e);
        },
    };
    let segs: Vec<String> = match decode_node_id(id) {
        Option::Some((_vid_part, rel)) => split_path(rel.as_str()),
        Option::None => split_path(id),
    };
    let ghost d0 = w.disk@;
    let ghost s0 = mounts_v(d0);
    let ghost target = split_of(rel_of_id(id@));
    let mount = w.disk.remove(m);
    proof {
        assert(mount == d0[m as int]);
        assert(segs_views(segs@).skip(0) =~= target);
    }
    let (new_entries, st) = entries_remove_at(mount.entries, &segs, 0);
    let nm = Mount {
        path: mount.path,
        entries: new_entries,
        snapshot: mount.snapshot,
        meta_contents: mount.meta_contents,
    };
    w.disk.insert(m, nm);
    proof {
        assert(w.disk@ =~= d0.update(m as int, nm));
        let nmv = MountV { entries: mount_v(nm).entries, ..s0[m as int] };
        assert(mount_v(nm) =~= nmv);
        assert forall|k: int| 0 <= k < w.disk@.len() implies mounts_v(w.disk@)[k] == s0.update(
            m as int,
            nmv,
        )[k] by {
            assert(mounts_v(w.disk@)[k] == mount_v(w.disk@[k]));
            if k != m {
                assert(w.disk@[k] == d0[k]);
                assert(s0[k] == mount_v(d0[k]));
            }
        }
        assert(mounts_v(w.disk@) =~= s0.update(m as int, nmv));
        assert forall|a: int, b: int|
            0 <= a < b < mounts_v(w.disk@).len() implies mounts_v(w.disk@)[a].path != mounts_v(
            w.disk@,
        )[b].path by {
            assert(mounts_v(w.disk@)[a].path == s0[a].path);
            assert(mounts_v(w.disk@)[b].path == s0[b].path);
        }
        if st is Ok {
            lemma_remove_at_wf(s0[m as int].entries, target);
        } else {
            assert(mounts_v(w.disk@) =~= s0);
        }
    }
    st
}

/// Renames the entry a node identifier addresses to `new_name` in its
/// parent directory, atomically in the model, and returns the
/// identifier re-encoded from the new relative path. An already
/// occupied destination is an error — no automatic conflict resolution.
pub fn rename_node_cmd(w: &mut World, vault_id: &str, id: &str, new_name: &str) -> (r: Result<
    String,
    StoreError,
>)
    requires
        world_wf(*old(w)),
    ensures
        world_wf(*final (w)),
        final (w).vaults@ == old(w).vaults@,
        final (w).trees@ == old(w).trees@,
        final (w).contents@ == old(w).contents@,
        final (w).workspace_plugins@ == old(w).workspace_plugins@,
        final (w).plugin_records@ == old(w).plugin_records@,
        final (w).prefs@ == old(w).prefs@,
        final (w).docs@ == old(w).docs@,
        ({
            let target = split_of(rel_of_id(id@));
            let backing = spec_backing_of(*old(w), vault_id@);
            match r {
                Result::Ok(nid) => {
                    &&& backing is Some
                    &&& disk_has(mounts_v(old(w).disk@), backing->0)
                    &&& seg_ok(new_name@)
                    &&& ({
                        let mi = disk_idx(mounts_v(old(w).disk@), backing->0);
                        let op = rename_at(mounts_v(old(w).disk@)[mi].entries, target, new_name@);
                        op is Ok && mounts_v(final (w).disk@) == mounts_v(old(w).disk@).update(
                            mi,
                            MountV { entries: op->Ok_0, ..mounts_v(old(w).disk@)[mi] },
                        )
                    })
                    &&& nid@ == encoded(
                        vault_id@,
                        joined(target.update(target.len() - 1, new_name@)),
                    )
                },
                Result::Err(e) => mounts_v(final (w).disk@) == mounts_v(old(w).disk@) && (if backing
                    is None {
                    e == StoreError::VaultNotFound
                } else if !disk_has(mounts_v(old(w).disk@), backing->0) {
                    e == StoreError::VaultPathMissing
                } else if !seg_ok(new_name@) {
                    e == StoreError::InvalidPath
                } else {
                    let mi = disk_idx(mounts_v(old(w).disk@), backing->0);
                    let op = rename_at(mounts_v(old(w).disk@)[mi].entries, target, new_name@);
                    op is Err && e == op->Err_0
                }),
            }
        }),
{
    let m = match resolve_mount(w, vault_id) {
        Result::Ok(m) => m,
        Result::Err(e) => {
            return Result::Err(e);
        },
    };
    if !seg_ok_exec(new_name) {
        return Result::Err(StoreError::InvalidPath);
    }
    let segs: Vec<String> = match decode_node_id(id) {
        Option::Some((_vid_part, rel)) => split_path(rel.as_str()),
        Option::None => split_path(id),
    };
    let ghost d0 = w.disk@;
    let ghost s0 = mounts_v(d0);
    let ghost target = split_of(rel_of_id(id@));
    let mount = w.disk.remove(m);
    proof {
        assert(mount == d0[m as int]);
        assert(segs_views(segs@).skip(0) =~= target);
    }
    let (new_entries, st) = entries_rename_at(mount.entries, &segs, 0, new_name);
    let nm = Mount {
        path: mount.path,
        entries: new_entries,
        snapshot: mount.snapshot,
        meta_contents: mount.meta_contents,
    };
    w.disk.insert(m, nm);
    proof {
        assert(w.disk@ =~= d0.update(m as int, nm));
        let nmv = MountV { entries: mount_v(nm).entries, ..s0[m as int] };
        assert(mount_v(nm) =~= nmv);
        assert forall|k: int| 0 <= k < w.disk@.len() implies mounts_v(w.disk@)[k] == s0.update(
            m as int,
            nmv,
        )[k] by {
            assert(mounts_v(w.disk@)[k] == mount_v(w.disk@[k]));
            if k != m {
                assert(w.disk@[k] == d0[k]);
                assert(s0[k] == mount_v(d0[k]));
            }
        }
        assert(mounts_v(w.disk@) =~= s0.update(m as int, nmv));
        assert forall|a: int, b: int|
            0 <= a < b < mounts_v(w.disk@).len() implies mounts_v(w.disk@)[a].path != mounts_v(
            w.disk@,
        )[b].path by {
            assert(mounts_v(w.disk@)[a].path == s0[a].path);
            assert(mounts_v(w.disk@)[b].path == s0[b].path);
        }
        if st is Ok {
            lemma_rename_at_wf(s0[m as int].entries, target, new_name@);
        } else {
            assert(mounts_v(w.disk@) =~= s0);
        }
    }
    match st {
        Result::Ok(()) => {
            let mut segs2 = segs;
            let _ = segs2.pop();
            segs2.push(new_name.to_owned());
            proof {
                assert(segs_views(segs2@) =~= target.update(target.len() - 1, new_name@));
            }
            let rel = join_path(&segs2);
            Result::Ok(encode_node_id(vault_id, rel.as_str()))
        },
        Result::Err(e) => Result::Err(e),
    }
}


/// Deletion is irreversible and complete, in the mutator's own terms:
/// for a vault identifier free of colons (every generated identifier is
/// one), after `delete_node_cmd` succeeds on the identifier
/// `encoded(vault_id, rel)`, a fresh load of the vault — the scan of
/// its updated backing directory — holds no node whose identifier is
/// that identifier or lies nested below it.
pub proof fn lemma_delete_then_load(es: Seq<FsEntryV>, rel: Seq<char>, vault_id: Seq<char>)
    requires
        crate::codec::colon_free(vault_id),
        crate::fsmodel::dir_v_wf(es),
        path_ok(split_of(rel)),
        remove_at(es, split_of(rel)) is Ok,
    ensures
        rel_of_id(encoded(vault_id, rel)) == rel,
        crate::scan::forest_avoids(
            crate::scan::spec_scan(
                remove_at(es, split_of(rel))->Ok_0,
                vault_id + seq![':'],
                Seq::empty(),
                Option::None,
            ),
            encoded(vault_id, rel),
        ),
{
    crate::codec::lemma_codec_round_trip(vault_id, rel);
    crate::paths::lemma_joined_split(rel);
    crate::scan::lemma_load_after_delete(es, split_of(rel), vault_id);
}

} // verus!

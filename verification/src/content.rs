//! Content store: resolves a node identifier to where its text lives
//! and reads or writes it there.
//!
//! An identifier carrying a vault reference addresses the real file
//! below the vault's backing directory. A legacy opaque identifier is
//! looked up across the vaults' persisted tree snapshots and its text
//! kept as a side document, co-located with the vault when one hosts it,
//! in the application's private store otherwise.
use crate::codec::decode_node_id;
use crate::codec::spec_decode;
use crate::errors::StoreError;
use crate::fsmodel::lemma_write_file_wf;
use crate::fsmodel::read_file;
use crate::fsmodel::write_file;
use crate::fsops::entries_read_file;
use crate::fsops::entries_write_file;
use crate::paths::path_ok;
use crate::paths::segments_ok;
use crate::paths::segs_views;
use crate::paths::split_of;
use crate::paths::split_path;
use crate::resolver::find_vault_folder_for_file;
use crate::resolver::snapshot_at;
use crate::resolver::spec_backing_of;
use crate::resolver::vault_hosts;
use crate::text::is_absolute_path;
use crate::world::KvDoc;
use crate::world::Mount;
use crate::world::MountV;
use crate::world::World;
use crate::world::disk_has;
use crate::world::disk_idx;
use crate::world::find_mount;
use crate::world::find_vault;
use crate::world::kv_get;
use crate::world::kv_put;
use crate::world::kv_read;
use crate::world::kv_write;
use crate::world::kvs_v;
use crate::world::lemma_disk_idx;
use crate::world::lemma_vault_idx;
use crate::world::mount_v;
use crate::world::mounts_v;
use crate::world::vault_backing;
use crate::world::vault_v;
use crate::world::vaults_v;
use crate::world::world_wf;
use vstd::prelude::*;

verus! {

/// Loads the text stored under a node identifier, by the resolution
/// order: the real file of a path-backed vault, then the hosting
/// vault's co-located side document, then the application's private
/// store. A missing file reads as empty text, never as an error.
pub fn load_file_content(w: &World, file_id: &str) -> (r: Result<String, StoreError>)
    requires
        world_wf(*w),
    ensures
        ({
            let dec = spec_decode(file_id@);
            if dec is Some && spec_backing_of(*w, (dec->0).0) is Some {
                let p = spec_backing_of(*w, (dec->0).0)->0;
                if disk_has(mounts_v(w.disk@), p) {
                    let res = read_file(
                        mounts_v(w.disk@)[disk_idx(mounts_v(w.disk@), p)].entries,
                        split_of((dec->0).1),
                    );
                    match r {
                        Result::Ok(s) => res == Result::<Seq<char>, StoreError>::Ok(s@),
                        Result::Err(e) => res == Result::<Seq<char>, StoreError>::Err(e),
                    }
                } else {
                    r is Ok && r->Ok_0@ == Seq::<char>::empty()
                }
            } else {
                if exists|i: int| #[trigger] vault_hosts(*w, i, file_id@) {
                    r is Ok && (exists|i: int|
                        #[trigger] vault_hosts(*w, i, file_id@) && (forall|j: int|
                            0 <= j < i ==> !vault_hosts(*w, j, file_id@)) && r->Ok_0@ == kv_get(
                            mounts_v(w.disk@)[disk_idx(
                                mounts_v(w.disk@),
                                vault_backing(vaults_v(w.vaults@)[i])->0,
                            )].meta_contents,
                            file_id@,
                        ))
                } else {
                    r is Ok && r->Ok_0@ == kv_get(kvs_v(w.contents@), file_id@)
                }
            }
        }),
{
    match decode_node_id(file_id) {
        Option::Some((vid, rel)) => {
            match find_vault(&w.vaults, vid.as_str()) {
                Option::Some(j) => {
                    proof {
                        lemma_vault_idx(vaults_v(w.vaults@), vid@, j as int);
                        assert(vaults_v(w.vaults@)[j as int] == vault_v(w.vaults@[j as int]));
                    }
                    match &w.vaults[j].path {
                        Option::Some(p) => {
                            if is_absolute_path(p.as_str()) {
                                match find_mount(&w.disk, p.as_str()) {
                                    Option::Some(m) => {
                                        proof {
                                            lemma_disk_idx(mounts_v(w.disk@), p@, m as int);
                                            assert(mounts_v(w.disk@)[m as int] == mount_v(
                                                w.disk@[m as int],
                                            ));
                                        }
                                        let segs = split_path(rel.as_str());
                                        proof {
                                            assert(segs_views(segs@).skip(0) =~= split_of(rel@));
                                        }
                                        return entries_read_file(&w.disk[m].entries, &segs, 0);
                                    },
                                    Option::None => {
                                        return Result::Ok(String::new());
                                    },
                                }
                            }
                        },
                        Option::None => {},
                    }
                },
                Option::None => {},
            }
            legacy_load(w, file_id)
        },
        Option::None => legacy_load(w, file_id),
    }
}

/// Loads a legacy identifier's side document: from the hosting vault's
/// co-located collection when one hosts it, from the private store
/// otherwise.
fn legacy_load(w: &World, file_id: &str) -> (r: Result<String, StoreError>)
    requires
        world_wf(*w),
    ensures
        r is Ok,
        if exists|i: int| #[trigger] vault_hosts(*w, i, file_id@) {
            exists|i: int|
                #[trigger] vault_hosts(*w, i, file_id@) && (forall|j: int|
                    0 <= j < i ==> !vault_hosts(*w, j, file_id@)) && r->Ok_0@ == kv_get(
                    mounts_v(w.disk@)[disk_idx(
                        mounts_v(w.disk@),
                        vault_backing(vaults_v(w.vaults@)[i])->0,
                    )].meta_contents,
                    file_id@,
                )
        } else {
            r->Ok_0@ == kv_get(kvs_v(w.contents@), file_id@)
        },
{
    match find_vault_folder_for_file(w, file_id) {
        Option::Some(folder) => {
            proof {
                let i = choose|i: int|
                    #[trigger] vault_hosts(*w, i, file_id@) && folder@ == vault_backing(
                        vaults_v(w.vaults@)[i],
                    )->0 && (forall|j: int| 0 <= j < i ==> !vault_hosts(*w, j, file_id@));
                assert(vault_hosts(*w, i, file_id@));
                if !disk_has(mounts_v(w.disk@), folder@) {
                    assert(snapshot_at(*w, folder@) =~= Seq::<crate::node::NodeV>::empty());
                    assert(false);
                }
            }
            match find_mount(&w.disk, folder.as_str()) {
                Option::Some(m) => {
                    proof {
                        lemma_disk_idx(mounts_v(w.disk@), folder@, m as int);
                        assert(mounts_v(w.disk@)[m as int] == mount_v(w.disk@[m as int]));
                    }
                    Result::Ok(kv_read(&w.disk[m].meta_contents, file_id))
                },
                Option::None => {
                    proof {
                        assert(false);
                    }
                    Result::Ok(String::new())
                },
            }
        },
        Option::None => Result::Ok(kv_read(&w.contents, file_id)),
    }
}

/// Saves text under a node identifier, by the same resolution order as
/// loading: into the real file of a path-backed vault (creating missing
/// directories, overwriting prior contents), else into the hosting
/// vault's co-located side document, else into the private store.
pub fn save_file_content(w: &mut World, file_id: &str, json: &str) -> (r: Result<(), StoreError>)
    requires
        world_wf(*old(w)),
    ensures
        world_wf(*final (w)),
        final (w).vaults@ == old(w).vaults@,
        final (w).trees@ == old(w).trees@,
        final (w).workspace_plugins@ == old(w).workspace_plugins@,
        final (w).plugin_records@ == old(w).plugin_records@,
        final (w).prefs@ == old(w).prefs@,
        final (w).docs@ == old(w).docs@,
        ({
            let dec = spec_decode(file_id@);
            if dec is Some && spec_backing_of(*old(w), (dec->0).0) is Some {
                let p = spec_backing_of(*old(w), (dec->0).0)->0;
                &&& final (w).contents@ == old(w).contents@
                &&& if disk_has(mounts_v(old(w).disk@), p) {
                    let mi = disk_idx(mounts_v(old(w).disk@), p);
                    let segs = split_of((dec->0).1);
                    if path_ok(segs) {
                        let res = write_file(mounts_v(old(w).disk@)[mi].entries, segs, json@);
                        match r {
                            Result::Ok(()) => res is Ok && mounts_v(final (w).disk@) == mounts_v(
                                old(w).disk@,
                            ).update(
                                mi,
                                MountV { entries: res->Ok_0, ..mounts_v(old(w).disk@)[mi] },
                            ),
                            Result::Err(e) => res == Result::<
                                Seq<crate::fsmodel::FsEntryV>,
                                StoreError,
                            >::Err(e) && mounts_v(final (w).disk@) == mounts_v(old(w).disk@),
                        }
                    } else {
                        r == Result::<(), StoreError>::Err(StoreError::InvalidPath) && mounts_v(
                            final (w).disk@,
                        ) == mounts_v(old(w).disk@)
                    }
                } else {
                    r == Result::<(), StoreError>::Err(StoreError::VaultPathMissing) && final(w).disk@ == old(w).disk@
                }
            } else {
                if exists|i: int| #[trigger] vault_hosts(*old(w), i, file_id@) {
                    r is Ok && final (w).contents@ == old(w).contents@ && (exists|i: int|
                        #[trigger] vault_hosts(*old(w), i, file_id@) && (forall|j: int|
                            0 <= j < i ==> !vault_hosts(*old(w), j, file_id@)) && mounts_v(
                            final (w).disk@,
                        ) == mounts_v(old(w).disk@).update(
                            disk_idx(
                                mounts_v(old(w).disk@),
                                vault_backing(vaults_v(old(w).vaults@)[i])->0,
                            ),
                            MountV {
                                meta_contents: kv_put(
                                    mounts_v(old(w).disk@)[disk_idx(
                                        mounts_v(old(w).disk@),
                                        vault_backing(vaults_v(old(w).vaults@)[i])->0,
                                    )].meta_contents,
                                    file_id@,
                                    json@,
                                ),
                                ..mounts_v(old(w).disk@)[disk_idx(
                                    mounts_v(old(w).disk@),
                                    vault_backing(vaults_v(old(w).vaults@)[i])->0,
                                )]
                            },
                        ))
                } else {
                    r is Ok && final (w).disk@ == old(w).disk@ && kvs_v(final (w).contents@)
                        == kv_put(kvs_v(old(w).contents@), file_id@, json@)
                }
            }
        }),
{
    match decode_node_id(file_id) {
        Option::Some((vid, rel)) => {
            let mut scoped_mount: Option<usize> = Option::None;
            let mut scoped = false;
            match find_vault(&w.vaults, vid.as_str()) {
                Option::Some(j) => {
                    proof {
                        lemma_vault_idx(vaults_v(w.vaults@), vid@, j as int);
                        assert(vaults_v(w.vaults@)[j as int] == vault_v(w.vaults@[j as int]));
                    }
                    match &w.vaults[j].path {
                        Option::Some(p) => {
                            if is_absolute_path(p.as_str()) {
                                scoped = true;
                                match find_mount(&w.disk, p.as_str()) {
                                    Option::Some(m) => {
                                        proof {
                                            lemma_disk_idx(mounts_v(w.disk@), p@, m as int);
                                            assert(mounts_v(w.disk@)[m as int] == mount_v(
                                                w.disk@[m as int],
                                            ));
                                        }
                                        scoped_mount = Option::Some(m);
                                    },
                                    Option::None => {},
                                }
                            }
                        },
                        Option::None => {},
                    }
                },
                Option::None => {},
            }
            if scoped {
                match scoped_mount {
                    Option::Some(m) => {
                        let segs = split_path(rel.as_str());
                        if !segments_ok(&segs) {
                            return Result::Err(StoreError::InvalidPath);
                        }
                        let ghost d0 = w.disk@;
                        let ghost s0 = mounts_v(d0);
                        let mount = w.disk.remove(m);
                        proof {
                            assert(mount == d0[m as int]);
                            assert(segs_views(segs@).skip(0) =~= split_of(rel@));
                        }
                        let (new_entries, st) = entries_write_file(mount.entries, &segs, 0, json);
                        let nm = Mount {
                            path: mount.path,
                            entries: new_entries,
                            snapshot: mount.snapshot,
                            meta_contents: mount.meta_contents,
                        };
                        w.disk.insert(m, nm);
                        proof {
                            assert(w.disk@ =~= d0.update(m as int, nm));
                            let nmv = MountV { entries: mount_v(nm).entries, ..s0[m as int] };
                            assert(mount_v(nm) =~= nmv);
                            assert forall|k: int| 0 <= k < w.disk@.len() implies mounts_v(
                                w.disk@,
                            )[k] == s0.update(m as int, nmv)[k] by {
                                assert(mounts_v(w.disk@)[k] == mount_v(w.disk@[k]));
                                if k != m {
                                    assert(w.disk@[k] == d0[k]);
                                    assert(s0[k] == mount_v(d0[k]));
                                }
                            }
                            assert(mounts_v(w.disk@) =~= s0.update(m as int, nmv));
                            assert forall|a: int, b: int|
                                0 <= a < b < mounts_v(w.disk@).len() implies mounts_v(
                                w.disk@,
                            )[a].path != mounts_v(w.disk@)[b].path by {
                                assert(mounts_v(w.disk@)[a].path == s0[a].path);
                                assert(mounts_v(w.disk@)[b].path == s0[b].path);
                            }
                            if st is Ok {
                                lemma_write_file_wf(s0[m as int].entries, split_of(rel@), json@);
                            } else {
                                assert(mounts_v(w.disk@) =~= s0);
                            }
                        }
                        match st {
                            Result::Ok(()) => Result::Ok(()),
                            Result::Err(e) => Result::Err(e),
                        }
                    },
                    Option::None => Result::Err(StoreError::VaultPathMissing),
                }
            } else {
                legacy_save(w, file_id, json)
            }
        },
        Option::None => legacy_save(w, file_id, json),
    }
}

/// Saves a legacy identifier's side document: into the hosting vault's
/// co-located collection when one hosts it, into the private store
/// otherwise.
fn legacy_save(w: &mut World, file_id: &str, json: &str) -> (r: Result<(), StoreError>)
    requires
        world_wf(*old(w)),
    ensures
        world_wf(*final (w)),
        r is Ok,
        final (w).vaults@ == old(w).vaults@,
        final (w).trees@ == old(w).trees@,
        final (w).workspace_plugins@ == old(w).workspace_plugins@,
        final (w).plugin_records@ == old(w).plugin_records@,
        final (w).prefs@ == old(w).prefs@,
        final (w).docs@ == old(w).docs@,
        if exists|i: int| #[trigger] vault_hosts(*old(w), i, file_id@) {
            final (w).contents@ == old(w).contents@ && (exists|i: int|
                #[trigger] vault_hosts(*old(w), i, file_id@) && (forall|j: int|
                    0 <= j < i ==> !vault_hosts(*old(w), j, file_id@)) && mounts_v(final (w).disk@)
                    == mounts_v(old(w).disk@).update(
                    disk_idx(
                        mounts_v(old(w).disk@),
                        vault_backing(vaults_v(old(w).vaults@)[i])->0,
                    ),
                    MountV {
                        meta_contents: kv_put(
                            mounts_v(old(w).disk@)[disk_idx(
                                mounts_v(old(w).disk@),
                                vault_backing(vaults_v(old(w).vaults@)[i])->0,
                            )].meta_contents,
                            file_id@,
                            json@,
                        ),
                        ..mounts_v(old(w).disk@)[disk_idx(
                            mounts_v(old(w).disk@),
                            vault_backing(vaults_v(old(w).vaults@)[i])->0,
                        )]
                    },
                ))
        } else {
            final (w).disk@ == old(w).disk@ && kvs_v(final (w).contents@) == kv_put(
                kvs_v(old(w).contents@),
                file_id@,
                json@,
            )
        },
{
    match find_vault_folder_for_file(w, file_id) {
        Option::Some(folder) => {
            proof {
                let i = choose|i: int|
                    #[trigger] vault_hosts(*old(w), i, file_id@) && folder@ == vault_backing(
                        vaults_v(old(w).vaults@)[i],
                    )->0 && (forall|j: int| 0 <= j < i ==> !vault_hosts(*old(w), j, file_id@));
                assert(vault_hosts(*old(w), i, file_id@));
                if !disk_has(mounts_v(w.disk@), folder@) {
                    assert(snapshot_at(*old(w), folder@) =~= Seq::<crate::node::NodeV>::empty());
                    assert(false);
                }
            }
            match find_mount(&w.disk, folder.as_str()) {
                Option::Some(m) => {
                    proof {
                        lemma_disk_idx(mounts_v(w.disk@), folder@, m as int);
                        assert(mounts_v(w.disk@)[m as int] == mount_v(w.disk@[m as int]));
                    }
                    let ghost d0 = w.disk@;
                    let ghost s0 = mounts_v(d0);
                    let mut mount = w.disk.remove(m);
                    proof {
                        assert(mount == d0[m as int]);
                    }
                    kv_write(&mut mount.meta_contents, file_id, json);
                    let nm = mount;
                    w.disk.insert(m, nm);
                    proof {
                        assert(w.disk@ =~= d0.update(m as int, nm));
                        let nmv = MountV {
                            meta_contents: kv_put(s0[m as int].meta_contents, file_id@, json@),
                            ..s0[m as int]
                        };
                        assert(mount_v(nm) =~= nmv);
                        assert forall|k: int| 0 <= k < w.disk@.len() implies mounts_v(w.disk@)[k]
                            == s0.update(m as int, nmv)[k] by {
                            assert(mounts_v(w.disk@)[k] == mount_v(w.disk@[k]));
                            if k != m {
                                assert(w.disk@[k] == d0[k]);
                                assert(s0[k] == mount_v(d0[k]));
                            }
                        }
                        assert(mounts_v(w.disk@) =~= s0.update(m as int, nmv));
                        assert forall|a: int, b: int|
                            0 <= a < b < mounts_v(w.disk@).len() implies mounts_v(w.disk@)[a].path
                            != mounts_v(w.disk@)[b].path by {
                            assert(mounts_v(w.disk@)[a].path == s0[a].path);
                            assert(mounts_v(w.disk@)[b].path == s0[b].path);
                        }
                    }
                    Result::Ok(())
                },
                Option::None => {
                    proof {
                        assert(false);
                    }
                    Result::Ok(())
                },
            }
        },
        Option::None => {
            kv_write(&mut w.contents, file_id, json);
            Result::Ok(())
        },
    }
}

} // verus!

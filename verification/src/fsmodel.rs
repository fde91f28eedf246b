//! Value model of a vault's backing directory.
//!
//! A real directory is mirrored as a tree of entries; every operation the
//! core performs against the filesystem is defined here as a mathematical
//! function on that tree, and the executable operations elsewhere are
//! proved against these definitions.
use crate::errors::StoreError;
use crate::paths::path_ok;
use crate::paths::seg_ok;
use vstd::prelude::*;

verus! {

/// One entry of a modelled directory: a name and what it holds.
pub struct FsEntry {
    pub name: String,
    pub node: FsNode,
}

/// A modelled filesystem object: a directory with its entries, or a file
/// with its text content.
pub enum FsNode {
    Dir(Vec<FsEntry>),
    File(String),
}

/// Mathematical form of an entry.
#[verifier::ext_equal]
pub ghost struct FsEntryV {
    pub name: Seq<char>,
    pub node: FsNodeV,
}

/// Mathematical form of a filesystem object.
#[verifier::ext_equal]
pub ghost enum FsNodeV {
    Dir { entries: Seq<FsEntryV> },
    File { content: Seq<char> },
}

/// The mathematical form of a filesystem object.
pub open spec fn node_view(n: FsNode) -> FsNodeV
    decreases n,
{
    match n {
        FsNode::Dir(es) => FsNodeV::Dir { entries: entries_view(es@) },
        FsNode::File(c) => FsNodeV::File { content: c@ },
    }
}

/// The mathematical form of an entry.
pub open spec fn entry_view(e: FsEntry) -> FsEntryV
    decreases e,
{
    FsEntryV { name: e.name@, node: node_view(e.node) }
}

/// The mathematical form of a directory's entry list.
pub open spec fn entries_view(es: Seq<FsEntry>) -> Seq<FsEntryV>
    decreases es,
{
    if es.len() == 0 {
        Seq::empty()
    } else {
        entries_view(es.drop_last()).push(entry_view(es.last()))
    }
}

/// `entries_view` is the element-wise view.
pub proof fn lemma_entries_view(es: Seq<FsEntry>)
    ensures
        entries_view(es).len() == es.len(),
        forall|i: int| 0 <= i < es.len() ==> entries_view(es)[i] == entry_view(#[trigger] es[i]),
    decreases es,
{
    if es.len() > 0 {
        lemma_entries_view(es.drop_last());
        assert forall|i: int| 0 <= i < es.len() implies entries_view(es)[i] == entry_view(
            #[trigger] es[i],
        ) by {
            if i < es.len() - 1 {
                assert(es.drop_last()[i] == es[i]);
                assert(entries_view(es)[i] == entries_view(es.drop_last())[i]);
            } else {
                assert(es[i] == es.last());
            }
        }
    }
}

/// No two entries of the directory share a name.
pub open spec fn names_unique(es: Seq<FsEntryV>) -> bool {
    forall|i: int, j: int| 0 <= i < j < es.len() ==> es[i].name != es[j].name
}

/// Every entry of the list is well-formed.
pub open spec fn all_entries_wf(es: Seq<FsEntryV>) -> bool
    decreases es,
{
    if es.len() == 0 {
        true
    } else {
        all_entries_wf(es.drop_last()) && entry_v_wf(es.last())
    }
}

/// A well-formed entry: a usable name, and a well-formed object below it.
pub open spec fn entry_v_wf(e: FsEntryV) -> bool
    decreases e,
{
    seg_ok(e.name) && node_v_wf(e.node)
}

/// A well-formed object: every directory has uniquely named, well-formed
/// entries.
pub open spec fn node_v_wf(n: FsNodeV) -> bool
    decreases n,
{
    match n {
        FsNodeV::Dir { entries } => names_unique(entries) && all_entries_wf(entries),
        FsNodeV::File { .. } => true,
    }
}

/// A well-formed directory body.
pub open spec fn dir_v_wf(es: Seq<FsEntryV>) -> bool {
    names_unique(es) && all_entries_wf(es)
}

/// `all_entries_wf` is the element-wise conjunction.
pub proof fn lemma_all_entries_wf(es: Seq<FsEntryV>)
    ensures
        all_entries_wf(es) <==> (forall|i: int|
            0 <= i < es.len() ==> entry_v_wf(#[trigger] es[i])),
    decreases es,
{
    if es.len() > 0 {
        lemma_all_entries_wf(es.drop_last());
        assert(forall|i: int| 0 <= i < es.drop_last().len() ==> #[trigger] es.drop_last()[i]
            == es[i]);
        if forall|i: int| 0 <= i < es.len() ==> entry_v_wf(#[trigger] es[i]) {
            assert(forall|i: int|
                0 <= i < es.drop_last().len() ==> entry_v_wf(#[trigger] es.drop_last()[i]));
            assert(entry_v_wf(es.last()));
        }
        if all_entries_wf(es) {
            assert forall|i: int| 0 <= i < es.len() implies entry_v_wf(#[trigger] es[i]) by {
                if i < es.len() - 1 {
                    assert(entry_v_wf(es.drop_last()[i]));
                } else {
                    assert(es[i] == es.last());
                }
            }
        }
    }
}

/// Some entry carries this name.
pub open spec fn has_name(es: Seq<FsEntryV>, name: Seq<char>) -> bool {
    exists|i: int| 0 <= i < es.len() && (#[trigger] es[i]).name == name
}

/// The position of the entry carrying this name.
pub open spec fn name_idx(es: Seq<FsEntryV>, name: Seq<char>) -> int {
    choose|i: int| 0 <= i < es.len() && (#[trigger] es[i]).name == name
}

/// In a directory with unique names, the entry found at `j` is the one
/// `name_idx` denotes.
pub proof fn lemma_name_idx(es: Seq<FsEntryV>, name: Seq<char>, j: int)
    requires
        names_unique(es),
        0 <= j < es.len(),
        es[j].name == name,
    ensures
        has_name(es, name),
        name_idx(es, name) == j,
{
    assert(has_name(es, name));
    let i = name_idx(es, name);
    assert(0 <= i < es.len() && es[i].name == name);
}

/// The object at a relative path below `n`, when each path segment in turn
/// names an entry of a directory.
pub open spec fn lookup_node(n: FsNodeV, path: Seq<Seq<char>>) -> Option<FsNodeV>
    decreases path.len(),
{
    if path.len() == 0 {
        Option::Some(n)
    } else {
        match n {
            FsNodeV::File { .. } => Option::None,
            FsNodeV::Dir { entries } => {
                if has_name(entries, path[0]) {
                    lookup_node(entries[name_idx(entries, path[0])].node, path.drop_first())
                } else {
                    Option::None
                }
            },
        }
    }
}

/// The object at a relative path below a directory body.
pub open spec fn lookup_in(es: Seq<FsEntryV>, path: Seq<Seq<char>>) -> Option<FsNodeV> {
    lookup_node(FsNodeV::Dir { entries: es }, path)
}

/// Looking up across a concatenation resolves the first part, then the rest.
pub proof fn lemma_lookup_compose(es: Seq<FsEntryV>, p: Seq<Seq<char>>, q: Seq<Seq<char>>)
    ensures
        lookup_in(es, p + q) == match lookup_in(es, p) {
            Option::Some(n) => lookup_node(n, q),
            Option::None => Option::None::<FsNodeV>,
        },
    decreases p.len(),
{
    if p.len() == 0 {
        assert(p + q =~= q);
        assert(lookup_in(es, p) == Option::Some(FsNodeV::Dir { entries: es }));
    } else {
        assert((p + q)[0] == p[0]);
        assert((p + q).len() > 0);
        if has_name(es, p[0]) {
            let child = es[name_idx(es, p[0])].node;
            assert((p + q).drop_first() =~= p.drop_first() + q);
            assert(lookup_in(es, p + q) == lookup_node(child, p.drop_first() + q));
            assert(lookup_in(es, p) == lookup_node(child, p.drop_first()));
            match child {
                FsNodeV::Dir { entries } => {
                    lemma_lookup_compose(entries, p.drop_first(), q);
                    assert(lookup_node(child, p.drop_first() + q) == lookup_in(
                        entries,
                        p.drop_first() + q,
                    ));
                    assert(lookup_node(child, p.drop_first()) == lookup_in(
                        entries,
                        p.drop_first(),
                    ));
                },
                FsNodeV::File { .. } => {
                    if p.len() == 1 {
                        assert(p.drop_first() =~= Seq::<Seq<char>>::empty());
                        assert(p.drop_first() + q =~= q);
                        assert(lookup_node(child, p.drop_first()) == Option::Some(child));
                        assert(lookup_node(child, p.drop_first() + q) == lookup_node(child, q));
                    } else {
                        assert(p.drop_first().len() > 0);
                        assert((p.drop_first() + q).len() > 0);
                        assert(lookup_node(child, p.drop_first()) is None);
                        assert(lookup_node(child, p.drop_first() + q) is None);
                    }
                },
            }
        } else {
            assert(lookup_in(es, p + q) is None);
            assert(lookup_in(es, p) is None);
        }
    }
}



/// Reads the text of the file at `path`. A path that runs off into
/// nothing reads as empty text; a directory cannot be read as a file and
/// a file standing mid-path cannot be traversed.
pub open spec fn read_file(es: Seq<FsEntryV>, path: Seq<Seq<char>>) -> Result<
    Seq<char>,
    StoreError,
>
    decreases path.len(),
{
    if path.len() == 0 {
        Result::Err(StoreError::IsADirectory)
    } else {
        let name = path[0];
        if !has_name(es, name) {
            Result::Ok(Seq::empty())
        } else {
            let i = name_idx(es, name);
            if path.len() == 1 {
                match es[i].node {
                    FsNodeV::File { content } => Result::Ok(content),
                    FsNodeV::Dir { .. } => Result::Err(StoreError::IsADirectory),
                }
            } else {
                match es[i].node {
                    FsNodeV::File { .. } => Result::Err(StoreError::NotADirectory),
                    FsNodeV::Dir { entries } => read_file(entries, path.drop_first()),
                }
            }
        }
    }
}

/// Writes `content` to the file at `path`, creating missing directories
/// along the way and overwriting an existing file; refuses a directory at
/// the destination and a file standing mid-path.
pub open spec fn write_file(es: Seq<FsEntryV>, path: Seq<Seq<char>>, content: Seq<char>) -> Result<
    Seq<FsEntryV>,
    StoreError,
>
    decreases path.len(),
{
    if path.len() == 0 {
        Result::Err(StoreError::InvalidPath)
    } else {
        let name = path[0];
        if path.len() == 1 {
            if has_name(es, name) {
                let i = name_idx(es, name);
                match es[i].node {
                    FsNodeV::Dir { .. } => Result::Err(StoreError::IsADirectory),
                    FsNodeV::File { .. } => Result::Ok(
                        es.update(i, FsEntryV { name, node: FsNodeV::File { content } }),
                    ),
                }
            } else {
                Result::Ok(es.push(FsEntryV { name, node: FsNodeV::File { content } }))
            }
        } else {
            if has_name(es, name) {
                let i = name_idx(es, name);
                match es[i].node {
                    FsNodeV::File { .. } => Result::Err(StoreError::NotADirectory),
                    FsNodeV::Dir { entries } => match write_file(
                        entries,
                        path.drop_first(),
                        content,
                    ) {
                        Result::Ok(sub) => Result::Ok(
                            es.update(i, FsEntryV { name, node: FsNodeV::Dir { entries: sub } }),
                        ),
                        Result::Err(e) => Result::Err(e),
                    },
                }
            } else {
                match write_file(Seq::empty(), path.drop_first(), content) {
                    Result::Ok(sub) => Result::Ok(
                        es.push(FsEntryV { name, node: FsNodeV::Dir { entries: sub } }),
                    ),
                    Result::Err(e) => Result::Err(e),
                }
            }
        }
    }
}

/// Creates the directory at `path` and any missing directories along the
/// way, doing nothing where it already exists; refuses a file in the way.
pub open spec fn make_dir(es: Seq<FsEntryV>, path: Seq<Seq<char>>) -> Result<
    Seq<FsEntryV>,
    StoreError,
>
    decreases path.len(),
{
    if path.len() == 0 {
        Result::Ok(es)
    } else {
        let name = path[0];
        if has_name(es, name) {
            let i = name_idx(es, name);
            match es[i].node {
                FsNodeV::File { .. } => Result::Err(StoreError::NotADirectory),
                FsNodeV::Dir { entries } => match make_dir(entries, path.drop_first()) {
                    Result::Ok(sub) => Result::Ok(
                        es.update(i, FsEntryV { name, node: FsNodeV::Dir { entries: sub } }),
                    ),
                    Result::Err(e) => Result::Err(e),
                },
            }
        } else {
            match make_dir(Seq::empty(), path.drop_first()) {
                Result::Ok(sub) => Result::Ok(
                    es.push(FsEntryV { name, node: FsNodeV::Dir { entries: sub } }),
                ),
                Result::Err(e) => Result::Err(e),
            }
        }
    }
}

/// Removes the entry at `path`: a file, or a directory with everything
/// below it. Refuses a path that does not address an entry.
pub open spec fn remove_at(es: Seq<FsEntryV>, path: Seq<Seq<char>>) -> Result<
    Seq<FsEntryV>,
    StoreError,
>
    decreases path.len(),
{
    if path.len() == 0 {
        Result::Err(StoreError::InvalidPath)
    } else {
        let name = path[0];
        if !has_name(es, name) {
            Result::Err(StoreError::PathNotFound)
        } else {
            let i = name_idx(es, name);
            if path.len() == 1 {
                Result::Ok(es.remove(i))
            } else {
                match es[i].node {
                    FsNodeV::File { .. } => Result::Err(StoreError::PathNotFound),
                    FsNodeV::Dir { entries } => match remove_at(entries, path.drop_first()) {
                        Result::Ok(sub) => Result::Ok(
                            es.update(i, FsEntryV { name, node: FsNodeV::Dir { entries: sub } }),
                        ),
                        Result::Err(e) => Result::Err(e),
                    },
                }
            }
        }
    }
}

/// Gives the entry at `path` the name `new_name`, in place. Refuses a
/// missing entry and an already taken destination name.
pub open spec fn rename_at(
    es: Seq<FsEntryV>,
    path: Seq<Seq<char>>,
    new_name: Seq<char>,
) -> Result<Seq<FsEntryV>, StoreError>
    decreases path.len(),
{
    if path.len() == 0 {
        Result::Err(StoreError::InvalidPath)
    } else {
        let name = path[0];
        if !has_name(es, name) {
            Result::Err(StoreError::PathNotFound)
        } else {
            let i = name_idx(es, name);
            if path.len() == 1 {
                if new_name == name {
                    Result::Ok(es)
                } else if has_name(es, new_name) {
                    Result::Err(StoreError::DestinationExists)
                } else {
                    Result::Ok(es.update(i, FsEntryV { name: new_name, node: es[i].node }))
                }
            } else {
                match es[i].node {
                    FsNodeV::File { .. } => Result::Err(StoreError::PathNotFound),
                    FsNodeV::Dir { entries } => match rename_at(
                        entries,
                        path.drop_first(),
                        new_name,
                    ) {
                        Result::Ok(sub) => Result::Ok(
                            es.update(i, FsEntryV { name, node: FsNodeV::Dir { entries: sub } }),
                        ),
                        Result::Err(e) => Result::Err(e),
                    },
                }
            }
        }
    }
}

/// Replacing an entry by a well-formed entry of the same name keeps the
/// directory well-formed.
pub proof fn lemma_wf_update(es: Seq<FsEntryV>, i: int, ne: FsEntryV)
    requires
        dir_v_wf(es),
        0 <= i < es.len(),
        entry_v_wf(ne),
        ne.name == es[i].name,
    ensures
        dir_v_wf(es.update(i, ne)),
{
    lemma_all_entries_wf(es);
    let out = es.update(i, ne);
    assert(forall|k: int| 0 <= k < out.len() ==> (#[trigger] out[k]).name == es[k].name);
    assert(forall|k: int| 0 <= k < out.len() ==> entry_v_wf(#[trigger] out[k]));
    lemma_all_entries_wf(out);
}

/// Adding a well-formed entry under a fresh name keeps the directory
/// well-formed.
pub proof fn lemma_wf_push(es: Seq<FsEntryV>, ne: FsEntryV)
    requires
        dir_v_wf(es),
        entry_v_wf(ne),
        !has_name(es, ne.name),
    ensures
        dir_v_wf(es.push(ne)),
{
    lemma_all_entries_wf(es);
    let out = es.push(ne);
    assert(forall|k: int| 0 <= k < es.len() ==> out[k] == es[k]);
    assert(out[es.len() as int] == ne);
    assert(forall|k: int| 0 <= k < es.len() ==> (#[trigger] es[k]).name != ne.name);
    assert(forall|k: int| 0 <= k < out.len() ==> entry_v_wf(#[trigger] out[k]));
    lemma_all_entries_wf(out);
}

/// Removing an entry keeps the directory well-formed, and its name is no
/// longer present.
pub proof fn lemma_wf_remove(es: Seq<FsEntryV>, i: int)
    requires
        dir_v_wf(es),
        0 <= i < es.len(),
    ensures
        dir_v_wf(es.remove(i)),
        !has_name(es.remove(i), es[i].name),
{
    lemma_all_entries_wf(es);
    let out = es.remove(i);
    assert(forall|k: int| 0 <= k < i ==> out[k] == es[k]);
    assert(forall|k: int| i <= k < out.len() ==> out[k] == es[k + 1]);
    assert(forall|k: int| 0 <= k < out.len() ==> entry_v_wf(#[trigger] out[k]));
    lemma_all_entries_wf(out);
    assert forall|k: int| 0 <= k < out.len() implies (#[trigger] out[k]).name != es[i].name by {
        if k < i {
            assert(out[k] == es[k]);
        } else {
            assert(out[k] == es[k + 1]);
        }
    }
}

/// A well-formed directory holds only well-formed entries.
pub proof fn lemma_wf_child(es: Seq<FsEntryV>, i: int)
    requires
        dir_v_wf(es),
        0 <= i < es.len(),
    ensures
        entry_v_wf(es[i]),
{
    lemma_all_entries_wf(es);
}

/// Dropping the first segment of a usable path leaves a usable path.
pub proof fn lemma_path_ok_drop_first(path: Seq<Seq<char>>)
    requires
        path_ok(path),
        path.len() > 0,
    ensures
        path_ok(path.drop_first()),
{
    assert forall|k: int| 0 <= k < path.drop_first().len() implies seg_ok(
        #[trigger] path.drop_first()[k],
    ) by {
        assert(path.drop_first()[k] == path[k + 1]);
    }
}

/// An empty directory body is well-formed.
pub proof fn lemma_wf_empty()
    ensures
        dir_v_wf(Seq::<FsEntryV>::empty()),
{
    assert(all_entries_wf(Seq::<FsEntryV>::empty()));
}

/// Creating directories below an empty directory always succeeds.
pub proof fn lemma_make_dir_fresh(path: Seq<Seq<char>>)
    ensures
        make_dir(Seq::empty(), path) is Ok,
    decreases path.len(),
{
    if path.len() > 0 {
        assert(!has_name(Seq::empty(), path[0]));
        lemma_make_dir_fresh(path.drop_first());
    }
}

/// A successful write leaves the directory well-formed.
pub proof fn lemma_write_file_wf(es: Seq<FsEntryV>, path: Seq<Seq<char>>, content: Seq<char>)
    requires
        dir_v_wf(es),
        path_ok(path),
        write_file(es, path, content) is Ok,
    ensures
        dir_v_wf(write_file(es, path, content)->Ok_0),
    decreases path.len(),
{
    let name = path[0];
    assert(seg_ok(name));
    if path.len() == 1 {
        if has_name(es, name) {
            let i = name_idx(es, name);
            lemma_wf_child(es, i);
            lemma_wf_update(es, i, FsEntryV { name, node: FsNodeV::File { content } });
        } else {
            lemma_wf_push(es, FsEntryV { name, node: FsNodeV::File { content } });
        }
    } else {
        lemma_path_ok_drop_first(path);
        if has_name(es, name) {
            let i = name_idx(es, name);
            lemma_wf_child(es, i);
            match es[i].node {
                FsNodeV::Dir { entries } => {
                    lemma_write_file_wf(entries, path.drop_first(), content);
                    let sub = write_file(entries, path.drop_first(), content)->Ok_0;
                    lemma_wf_update(es, i, FsEntryV { name, node: FsNodeV::Dir { entries: sub } });
                },
                FsNodeV::File { .. } => {},
            }
        } else {
            lemma_wf_empty();
            lemma_write_file_wf(Seq::empty(), path.drop_first(), content);
            let sub = write_file(Seq::empty(), path.drop_first(), content)->Ok_0;
            lemma_wf_push(es, FsEntryV { name, node: FsNodeV::Dir { entries: sub } });
        }
    }
}

/// A successful directory creation leaves the directory well-formed.
pub proof fn lemma_make_dir_wf(es: Seq<FsEntryV>, path: Seq<Seq<char>>)
    requires
        dir_v_wf(es),
        path_ok(path),
        make_dir(es, path) is Ok,
    ensures
        dir_v_wf(make_dir(es, path)->Ok_0),
    decreases path.len(),
{
    if path.len() > 0 {
        let name = path[0];
        assert(seg_ok(name));
        lemma_path_ok_drop_first(path);
        if has_name(es, name) {
            let i = name_idx(es, name);
            lemma_wf_child(es, i);
            match es[i].node {
                FsNodeV::Dir { entries } => {
                    lemma_make_dir_wf(entries, path.drop_first());
                    let sub = make_dir(entries, path.drop_first())->Ok_0;
                    lemma_wf_update(es, i, FsEntryV { name, node: FsNodeV::Dir { entries: sub } });
                },
                FsNodeV::File { .. } => {},
            }
        } else {
            lemma_wf_empty();
            lemma_make_dir_wf(Seq::empty(), path.drop_first());
            let sub = make_dir(Seq::empty(), path.drop_first())->Ok_0;
            lemma_wf_push(es, FsEntryV { name, node: FsNodeV::Dir { entries: sub } });
        }
    }
}

/// A successful removal leaves the directory well-formed.
pub proof fn lemma_remove_at_wf(es: Seq<FsEntryV>, path: Seq<Seq<char>>)
    requires
        dir_v_wf(es),
        remove_at(es, path) is Ok,
    ensures
        dir_v_wf(remove_at(es, path)->Ok_0),
    decreases path.len(),
{
    if path.len() > 0 && has_name(es, path[0]) {
        let i = name_idx(es, path[0]);
        lemma_wf_child(es, i);
        if path.len() == 1 {
            lemma_wf_remove(es, i);
        } else {
            match es[i].node {
                FsNodeV::Dir { entries } => {
                    lemma_remove_at_wf(entries, path.drop_first());
                    let sub = remove_at(entries, path.drop_first())->Ok_0;
                    lemma_wf_update(
                        es,
                        i,
                        FsEntryV { name: path[0], node: FsNodeV::Dir { entries: sub } },
                    );
                },
                FsNodeV::File { .. } => {},
            }
        }
    }
}

/// A successful rename leaves the directory well-formed, as long as the
/// new name is usable.
pub proof fn lemma_rename_at_wf(es: Seq<FsEntryV>, path: Seq<Seq<char>>, new_name: Seq<char>)
    requires
        dir_v_wf(es),
        seg_ok(new_name),
        rename_at(es, path, new_name) is Ok,
    ensures
        dir_v_wf(rename_at(es, path, new_name)->Ok_0),
    decreases path.len(),
{
    if path.len() > 0 && has_name(es, path[0]) {
        let i = name_idx(es, path[0]);
        lemma_wf_child(es, i);
        if path.len() == 1 {
            if new_name != path[0] && !has_name(es, new_name) {
                let ne = FsEntryV { name: new_name, node: es[i].node };
                lemma_all_entries_wf(es);
                let out = es.update(i, ne);
                assert(forall|k: int|
                    0 <= k < out.len() && k != i ==> out[k] == es[k] && (#[trigger] out[k]).name
                        != new_name);
                assert(forall|k: int| 0 <= k < out.len() ==> entry_v_wf(#[trigger] out[k]));
                lemma_all_entries_wf(out);
                assert(names_unique(out));
            }
        } else {
            match es[i].node {
                FsNodeV::Dir { entries } => {
                    lemma_rename_at_wf(entries, path.drop_first(), new_name);
                    let sub = rename_at(entries, path.drop_first(), new_name)->Ok_0;
                    lemma_wf_update(
                        es,
                        i,
                        FsEntryV { name: path[0], node: FsNodeV::Dir { entries: sub } },
                    );
                },
                FsNodeV::File { .. } => {},
            }
        }
    }
}

/// Creating a folder is idempotent: creating it a second time succeeds
/// and leaves the tree exactly as it was.
pub proof fn lemma_make_dir_idempotent(es: Seq<FsEntryV>, path: Seq<Seq<char>>)
    requires
        dir_v_wf(es),
        path_ok(path),
        make_dir(es, path) is Ok,
    ensures
        make_dir(make_dir(es, path)->Ok_0, path) == make_dir(es, path),
    decreases path.len(),
{
    let out = make_dir(es, path)->Ok_0;
    if path.len() > 0 {
        let name = path[0];
        lemma_path_ok_drop_first(path);
        if has_name(es, name) {
            let i = name_idx(es, name);
            lemma_wf_child(es, i);
            match es[i].node {
                FsNodeV::Dir { entries } => {
                    let sub = make_dir(entries, path.drop_first())->Ok_0;
                    lemma_make_dir_wf(es, path);
                    assert(out == es.update(i, FsEntryV { name, node: FsNodeV::Dir { entries: sub } }));
                    assert(out[i].name == name);
                    lemma_name_idx(out, name, i);
                    lemma_make_dir_idempotent(entries, path.drop_first());
                    assert(make_dir(sub, path.drop_first()) == Result::<
                        Seq<FsEntryV>,
                        StoreError,
                    >::Ok(sub));
                    assert(out.update(i, FsEntryV { name, node: FsNodeV::Dir { entries: sub } })
                        =~= out);
                },
                FsNodeV::File { .. } => {},
            }
        } else {
            let sub = make_dir(Seq::empty(), path.drop_first())->Ok_0;
            lemma_make_dir_wf(es, path);
            assert(out == es.push(FsEntryV { name, node: FsNodeV::Dir { entries: sub } }));
            let i = es.len() as int;
            assert(out[i].name == name);
            lemma_name_idx(out, name, i);
            lemma_wf_empty();
            lemma_make_dir_idempotent(Seq::empty(), path.drop_first());
            assert(make_dir(sub, path.drop_first()) == Result::<Seq<FsEntryV>, StoreError>::Ok(
                sub,
            ));
            assert(out.update(i, FsEntryV { name, node: FsNodeV::Dir { entries: sub } }) =~= out);
        }
    }
}

/// After a successful removal, nothing stands at the removed path.
pub proof fn lemma_remove_at_lookup(es: Seq<FsEntryV>, path: Seq<Seq<char>>)
    requires
        dir_v_wf(es),
        remove_at(es, path) is Ok,
    ensures
        lookup_in(remove_at(es, path)->Ok_0, path) is None,
    decreases path.len(),
{
    let out = remove_at(es, path)->Ok_0;
    let name = path[0];
    let i = name_idx(es, name);
    if path.len() == 1 {
        lemma_wf_remove(es, i);
        assert(!has_name(out, name));
    } else {
        lemma_wf_child(es, i);
        match es[i].node {
            FsNodeV::Dir { entries } => {
                let sub = remove_at(entries, path.drop_first())->Ok_0;
                assert(out == es.update(i, FsEntryV { name, node: FsNodeV::Dir { entries: sub } }));
                assert(out[i].name == name);
                lemma_name_idx(out, name, i);
                lemma_remove_at_lookup(entries, path.drop_first());
                assert(lookup_in(out, path) == lookup_node(
                    FsNodeV::Dir { entries: sub },
                    path.drop_first(),
                ));
            },
            FsNodeV::File { .. } => {},
        }
    }
}

/// The view of an element-wise update.
pub proof fn lemma_view_update(a: Seq<FsEntry>, b: Seq<FsEntry>, i: int, ne: FsEntry)
    requires
        0 <= i < a.len(),
        b =~= a.update(i, ne),
    ensures
        entries_view(b) == entries_view(a).update(i, entry_view(ne)),
{
    lemma_entries_view(a);
    lemma_entries_view(b);
    assert forall|k: int| 0 <= k < b.len() implies entries_view(b)[k] == entries_view(a).update(
        i,
        entry_view(ne),
    )[k] by {
        if k != i {
            assert(b[k] == a[k]);
        } else {
            assert(b[k] == ne);
        }
    }
    assert(entries_view(b) =~= entries_view(a).update(i, entry_view(ne)));
}

/// The view of an appended entry.
pub proof fn lemma_view_push(a: Seq<FsEntry>, b: Seq<FsEntry>, ne: FsEntry)
    requires
        b =~= a.push(ne),
    ensures
        entries_view(b) == entries_view(a).push(entry_view(ne)),
{
    lemma_entries_view(a);
    lemma_entries_view(b);
    assert forall|k: int| 0 <= k < b.len() implies entries_view(b)[k] == entries_view(a).push(
        entry_view(ne),
    )[k] by {
        if k < a.len() {
            assert(b[k] == a[k]);
        } else {
            assert(b[k] == ne);
        }
    }
    assert(entries_view(b) =~= entries_view(a).push(entry_view(ne)));
}

/// The view of a removal.
pub proof fn lemma_view_remove(a: Seq<FsEntry>, b: Seq<FsEntry>, i: int)
    requires
        0 <= i < a.len(),
        b =~= a.remove(i),
    ensures
        entries_view(b) == entries_view(a).remove(i),
{
    lemma_entries_view(a);
    lemma_entries_view(b);
    assert forall|k: int| 0 <= k < b.len() implies entries_view(b)[k] == entries_view(a).remove(
        i,
    )[k] by {
        if k < i {
            assert(b[k] == a[k]);
        } else {
            assert(b[k] == a[k + 1]);
        }
    }
    assert(entries_view(b) =~= entries_view(a).remove(i));
}


/// Deletion is complete: after a successful removal, nothing stands at
/// the removed path nor anywhere below it.
pub proof fn lemma_remove_at_lookup_deep(es: Seq<FsEntryV>, path: Seq<Seq<char>>, q: Seq<Seq<char>>)
    requires
        dir_v_wf(es),
        remove_at(es, path) is Ok,
    ensures
        lookup_in(remove_at(es, path)->Ok_0, path + q) is None,
{
    let out = remove_at(es, path)->Ok_0;
    lemma_remove_at_lookup(es, path);
    lemma_lookup_compose(out, path, q);
}

} // verus!

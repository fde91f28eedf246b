//! Executable operations on the modelled backing directory, each proved
//! equal to its mathematical definition in `fsmodel`.
use crate::errors::StoreError;
use crate::fsmodel::FsEntry;
use crate::fsmodel::FsEntryV;
use crate::fsmodel::FsNode;
use crate::fsmodel::FsNodeV;
use crate::fsmodel::dir_v_wf;
use crate::fsmodel::entries_view;
use crate::fsmodel::entry_view;
use crate::fsmodel::has_name;
use crate::fsmodel::lemma_entries_view;
use crate::fsmodel::lemma_make_dir_fresh;
use crate::fsmodel::lemma_name_idx;
use crate::fsmodel::lemma_view_push;
use crate::fsmodel::lemma_view_remove;
use crate::fsmodel::lemma_view_update;
use crate::fsmodel::lemma_wf_child;
use crate::fsmodel::lemma_wf_empty;
use crate::fsmodel::make_dir;
use crate::fsmodel::node_view;
use crate::fsmodel::read_file;
use crate::fsmodel::remove_at;
use crate::fsmodel::rename_at;
use crate::fsmodel::write_file;
use crate::paths::segs_views;
use crate::text::str_eq;
use vstd::prelude::*;

verus! {

/// Index arithmetic of a path suffix.
proof fn lemma_skip_facts(segs: Seq<String>, from: int)
    requires
        0 <= from < segs.len(),
    ensures
        segs_views(segs).skip(from).len() == segs.len() - from,
        segs_views(segs).skip(from)[0] == segs[from]@,
        segs_views(segs).skip(from).drop_first() =~= segs_views(segs).skip(from + 1),
{
    assert(segs_views(segs)[from] == segs[from]@);
    assert(segs_views(segs).skip(from)[0] == segs_views(segs)[from]);
    assert(segs_views(segs).skip(from).drop_first() =~= segs_views(segs).skip(from + 1));
}

/// The position of the first entry carrying `name`, if any.
#[verifier::loop_isolation(false)]
fn find_entry(es: &Vec<FsEntry>, name: &str) -> (r: Option<usize>)
    ensures
        match r {
            Option::Some(j) => j < es@.len() && entries_view(es@)[j as int].name == name@,
            Option::None => !has_name(entries_view(es@), name@),
        },
{
    proof {
        lemma_entries_view(es@);
    }
    let n = es.len();
    let mut j: usize = 0;
    while j < n
        invariant
            j <= n,
            forall|k: int| 0 <= k < j ==> entries_view(es@)[k].name != name@,
        decreases n - j,
    {
        if str_eq(es[j].name.as_str(), name) {
            return Option::Some(j);
        }
        j = j + 1;
    }
    None
}

/// Reads the text of the file addressed by the path suffix
/// `segs[from..]`, as `read_file` defines it: a missing entry reads as
/// empty text.
pub fn entries_read_file(es: &Vec<FsEntry>, segs: &Vec<String>, from: usize) -> (r: Result<
    String,
    StoreError,
>)
    requires
        from < segs@.len(),
        dir_v_wf(entries_view(es@)),
    ensures
        ({
            let res = read_file(entries_view(es@), segs_views(segs@).skip(from as int));
            match r {
                Result::Ok(s) => res == Result::<Seq<char>, StoreError>::Ok(s@),
                Result::Err(e) => res == Result::<Seq<char>, StoreError>::Err(e),
            }
        }),
    decreases segs@.len() - from,
{
    let ghost es_v = entries_view(es@);
    let ghost path = segs_views(segs@).skip(from as int);
    proof {
        lemma_skip_facts(segs@, from as int);
        lemma_entries_view(es@);
    }
    match find_entry(es, segs[from].as_str()) {
        Option::None => Result::Ok(String::new()),
        Option::Some(j) => {
            proof {
                lemma_name_idx(es_v, segs@[from as int]@, j as int);
                lemma_wf_child(es_v, j as int);
            }
            if from == segs.len() - 1 {
                match &es[j].node {
                    FsNode::File(c) => Result::Ok(c.clone()),
                    FsNode::Dir(_) => Result::Err(StoreError::IsADirectory),
                }
            } else {
                match &es[j].node {
                    FsNode::File(_) => Result::Err(StoreError::NotADirectory),
                    FsNode::Dir(ces) => {
                        proof {
                            assert(es_v[j as int].node == node_view(es@[j as int].node));
                        }
                        entries_read_file(ces, segs, from + 1)
                    },
                }
            }
        },
    }
}

/// Writes `content` to the file addressed by `segs[from..]`, as
/// `write_file` defines it. The returned entries are the input entries
/// unchanged when an error is returned.
pub fn entries_write_file(es: Vec<FsEntry>, segs: &Vec<String>, from: usize, content: &str) -> (r:
    (Vec<FsEntry>, Result<(), StoreError>))
    requires
        from < segs@.len(),
        dir_v_wf(entries_view(es@)),
    ensures
        ({
            let res = write_file(entries_view(es@), segs_views(segs@).skip(from as int), content@);
            &&& r.1 is Ok ==> res == Result::<Seq<FsEntryV>, StoreError>::Ok(entries_view(r.0@))
            &&& r.1 is Err ==> res == Result::<Seq<FsEntryV>, StoreError>::Err(r.1->Err_0)
                && entries_view(r.0@) == entries_view(es@)
        }),
    decreases segs@.len() - from,
{
    let ghost es0 = es@;
    let ghost es_v = entries_view(es0);
    let ghost path = segs_views(segs@).skip(from as int);
    proof {
        lemma_skip_facts(segs@, from as int);
        lemma_entries_view(es0);
    }
    let mut es = es;
    match find_entry(&es, segs[from].as_str()) {
        Option::Some(j) => {
            proof {
                lemma_name_idx(es_v, segs@[from as int]@, j as int);
                lemma_wf_child(es_v, j as int);
            }
            let entry = es.remove(j);
            proof {
                assert(entry == es0[j as int]);
                assert(es_v[j as int].node == node_view(entry.node));
            }
            let FsEntry { name: ename, node: enode } = entry;
            if from == segs.len() - 1 {
                match enode {
                    FsNode::Dir(ces) => {
                        let ne = FsEntry { name: ename, node: FsNode::Dir(ces) };
                        proof {
                            assert(ne == es0[j as int]);
                        }
                        es.insert(j, ne);
                        proof {
                            assert(es@ =~= es0);
                        }
                        (es, Result::Err(StoreError::IsADirectory))
                    },
                    FsNode::File(_) => {
                        let ne = FsEntry { name: ename, node: FsNode::File(content.to_owned()) };
                        es.insert(j, ne);
                        proof {
                            assert(es@ =~= es0.update(j as int, ne));
                            lemma_view_update(es0, es@, j as int, ne);
                            assert(entry_view(ne) == (FsEntryV {
                                name: path[0],
                                node: FsNodeV::File { content: content@ },
                            }));
                        }
                        (es, Result::Ok(()))
                    },
                }
            } else {
                match enode {
                    FsNode::File(c) => {
                        let ne = FsEntry { name: ename, node: FsNode::File(c) };
                        proof {
                            assert(ne == es0[j as int]);
                        }
                        es.insert(j, ne);
                        proof {
                            assert(es@ =~= es0);
                        }
                        (es, Result::Err(StoreError::NotADirectory))
                    },
                    FsNode::Dir(ces) => {
                        let (nces, st) = entries_write_file(ces, segs, from + 1, content);
                        let ne = FsEntry { name: ename, node: FsNode::Dir(nces) };
                        es.insert(j, ne);
                        proof {
                            assert(es@ =~= es0.update(j as int, ne));
                            lemma_view_update(es0, es@, j as int, ne);
                        }
                        match st {
                            Result::Ok(()) => (es, Result::Ok(())),
                            Result::Err(e) => {
                                proof {
                                    assert(entry_view(ne) == es_v[j as int]);
                                    assert(entries_view(es@) =~= es_v);
                                }
                                (es, Result::Err(e))
                            },
                        }
                    },
                }
            }
        },
        Option::None => {
            if from == segs.len() - 1 {
                let ne = FsEntry {
                    name: segs[from].clone(),
                    node: FsNode::File(content.to_owned()),
                };
                es.push(ne);
                proof {
                    assert(es@ =~= es0.push(ne));
                    lemma_view_push(es0, es@, ne);
                    assert(entry_view(ne) == (FsEntryV {
                        name: path[0],
                        node: FsNodeV::File { content: content@ },
                    }));
                }
                (es, Result::Ok(()))
            } else {
                proof {
                    lemma_wf_empty();
                }
                let sub_in: Vec<FsEntry> = Vec::new();
                proof {
                    assert(entries_view(sub_in@) =~= Seq::<FsEntryV>::empty());
                }
                let (sub, st) = entries_write_file(sub_in, segs, from + 1, content);
                match st {
                    Result::Ok(()) => {
                        let ne = FsEntry { name: segs[from].clone(), node: FsNode::Dir(sub) };
                        es.push(ne);
                        proof {
                            assert(es@ =~= es0.push(ne));
                            lemma_view_push(es0, es@, ne);
                        }
                        (es, Result::Ok(()))
                    },
                    Result::Err(e) => (es, Result::Err(e)),
                }
            }
        },
    }
}

/// Creates the directory addressed by `segs[from..]`, as `make_dir`
/// defines it: already present is not an error, a file in the way is.
pub fn entries_make_dir(es: Vec<FsEntry>, segs: &Vec<String>, from: usize) -> (r: (
    Vec<FsEntry>,
    Result<(), StoreError>,
))
    requires
        from <= segs@.len(),
        dir_v_wf(entries_view(es@)),
    ensures
        ({
            let res = make_dir(entries_view(es@), segs_views(segs@).skip(from as int));
            &&& r.1 is Ok ==> res == Result::<Seq<FsEntryV>, StoreError>::Ok(entries_view(r.0@))
            &&& r.1 is Err ==> res == Result::<Seq<FsEntryV>, StoreError>::Err(r.1->Err_0)
                && entries_view(r.0@) == entries_view(es@)
        }),
    decreases segs@.len() - from,
{
    let ghost es0 = es@;
    let ghost es_v = entries_view(es0);
    let ghost path = segs_views(segs@).skip(from as int);
    proof {
        lemma_entries_view(es0);
    }
    let mut es = es;
    if from == segs.len() {
        proof {
            assert(path =~= Seq::<Seq<char>>::empty());
        }
        return (es, Result::Ok(()));
    }
    proof {
        lemma_skip_facts(segs@, from as int);
    }
    match find_entry(&es, segs[from].as_str()) {
        Option::Some(j) => {
            proof {
                lemma_name_idx(es_v, segs@[from as int]@, j as int);
                lemma_wf_child(es_v, j as int);
            }
            let entry = es.remove(j);
            proof {
                assert(entry == es0[j as int]);
                assert(es_v[j as int].node == node_view(entry.node));
            }
            let FsEntry { name: ename, node: enode } = entry;
            match enode {
                FsNode::File(c) => {
                    let ne = FsEntry { name: ename, node: FsNode::File(c) };
                    proof {
                        assert(ne == es0[j as int]);
                    }
                    es.insert(j, ne);
                    proof {
                        assert(es@ =~= es0);
                    }
                    (es, Result::Err(StoreError::NotADirectory))
                },
                FsNode::Dir(ces) => {
                    let (nces, st) = entries_make_dir(ces, segs, from + 1);
                    let ne = FsEntry { name: ename, node: FsNode::Dir(nces) };
                    es.insert(j, ne);
                    proof {
                        assert(es@ =~= es0.update(j as int, ne));
                        lemma_view_update(es0, es@, j as int, ne);
                    }
                    match st {
                        Result::Ok(()) => (es, Result::Ok(())),
                        Result::Err(e) => {
                            proof {
                                assert(entry_view(ne) == es_v[j as int]);
                                assert(entries_view(es@) =~= es_v);
                            }
                            (es, Result::Err(e))
                        },
                    }
                },
            }
        },
        Option::None => {
            proof {
                lemma_wf_empty();
                lemma_make_dir_fresh(segs_views(segs@).skip(from as int + 1));
            }
            let sub_in: Vec<FsEntry> = Vec::new();
            proof {
                assert(entries_view(sub_in@) =~= Seq::<FsEntryV>::empty());
            }
            let (sub, st) = entries_make_dir(sub_in, segs, from + 1);
            match st {
                Result::Ok(()) => {
                    let ne = FsEntry { name: segs[from].clone(), node: FsNode::Dir(sub) };
                    es.push(ne);
                    proof {
                        assert(es@ =~= es0.push(ne));
                        lemma_view_push(es0, es@, ne);
                    }
                    (es, Result::Ok(()))
                },
                Result::Err(e) => {
                    proof {
                        assert(false);
                    }
                    (es, Result::Err(e))
                },
            }
        },
    }
}

/// Removes the entry addressed by `segs[from..]`, as `remove_at` defines
/// it.
pub fn entries_remove_at(es: Vec<FsEntry>, segs: &Vec<String>, from: usize) -> (r: (
    Vec<FsEntry>,
    Result<(), StoreError>,
))
    requires
        from < segs@.len(),
        dir_v_wf(entries_view(es@)),
    ensures
        ({
            let res = remove_at(entries_view(es@), segs_views(segs@).skip(from as int));
            &&& r.1 is Ok ==> res == Result::<Seq<FsEntryV>, StoreError>::Ok(entries_view(r.0@))
            &&& r.1 is Err ==> res == Result::<Seq<FsEntryV>, StoreError>::Err(r.1->Err_0)
                && entries_view(r.0@) == entries_view(es@)
        }),
    decreases segs@.len() - from,
{
    let ghost es0 = es@;
    let ghost es_v = entries_view(es0);
    let ghost path = segs_views(segs@).skip(from as int);
    proof {
        lemma_skip_facts(segs@, from as int);
        lemma_entries_view(es0);
    }
    let mut es = es;
    match find_entry(&es, segs[from].as_str()) {
        Option::None => (es, Result::Err(StoreError::PathNotFound)),
        Option::Some(j) => {
            proof {
                lemma_name_idx(es_v, segs@[from as int]@, j as int);
                lemma_wf_child(es_v, j as int);
            }
            let entry = es.remove(j);
            proof {
                assert(entry == es0[j as int]);
                assert(es_v[j as int].node == node_view(entry.node));
            }
            if from == segs.len() - 1 {
                proof {
                    assert(es@ =~= es0.remove(j as int));
                    lemma_view_remove(es0, es@, j as int);
                }
                (es, Result::Ok(()))
            } else {
                let FsEntry { name: ename, node: enode } = entry;
                match enode {
                    FsNode::File(c) => {
                        let ne = FsEntry { name: ename, node: FsNode::File(c) };
                        proof {
                            assert(ne == es0[j as int]);
                        }
                        es.insert(j, ne);
                        proof {
                            assert(es@ =~= es0);
                        }
                        (es, Result::Err(StoreError::PathNotFound))
                    },
                    FsNode::Dir(ces) => {
                        let (nces, st) = entries_remove_at(ces, segs, from + 1);
                        let ne = FsEntry { name: ename, node: FsNode::Dir(nces) };
                        es.insert(j, ne);
                        proof {
                            assert(es@ =~= es0.update(j as int, ne));
                            lemma_view_update(es0, es@, j as int, ne);
                        }
                        match st {
                            Result::Ok(()) => (es, Result::Ok(())),
                            Result::Err(e) => {
                                proof {
                                    assert(entry_view(ne) == es_v[j as int]);
                                    assert(entries_view(es@) =~= es_v);
                                }
                                (es, Result::Err(e))
                            },
                        }
                    },
                }
            }
        },
    }
}

/// Renames the entry addressed by `segs[from..]` to `new_name`, as
/// `rename_at` defines it.
pub fn entries_rename_at(es: Vec<FsEntry>, segs: &Vec<String>, from: usize, new_name: &str) -> (r:
    (Vec<FsEntry>, Result<(), StoreError>))
    requires
        from < segs@.len(),
        dir_v_wf(entries_view(es@)),
    ensures
        ({
            let res = rename_at(
                entries_view(es@),
                segs_views(segs@).skip(from as int),
                new_name@,
            );
            &&& r.1 is Ok ==> res == Result::<Seq<FsEntryV>, StoreError>::Ok(entries_view(r.0@))
            &&& r.1 is Err ==> res == Result::<Seq<FsEntryV>, StoreError>::Err(r.1->Err_0)
                && entries_view(r.0@) == entries_view(es@)
        }),
    decreases segs@.len() - from,
{
    let ghost es0 = es@;
    let ghost es_v = entries_view(es0);
    let ghost path = segs_views(segs@).skip(from as int);
    proof {
        lemma_skip_facts(segs@, from as int);
        lemma_entries_view(es0);
    }
    let mut es = es;
    match find_entry(&es, segs[from].as_str()) {
        Option::None => (es, Result::Err(StoreError::PathNotFound)),
        Option::Some(j) => {
            proof {
                lemma_name_idx(es_v, segs@[from as int]@, j as int);
                lemma_wf_child(es_v, j as int);
            }
            if from == segs.len() - 1 {
                if str_eq(new_name, segs[from].as_str()) {
                    return (es, Result::Ok(()));
                }
                match find_entry(&es, new_name) {
                    Option::Some(_) => (es, Result::Err(StoreError::DestinationExists)),
                    Option::None => {
                        let entry = es.remove(j);
                        proof {
                            assert(entry == es0[j as int]);
                        }
                        let FsEntry { name: _ename, node: enode } = entry;
                        let ne = FsEntry { name: new_name.to_owned(), node: enode };
                        es.insert(j, ne);
                        proof {
                            assert(es@ =~= es0.update(j as int, ne));
                            lemma_view_update(es0, es@, j as int, ne);
                            assert(entry_view(ne) == (FsEntryV {
                                name: new_name@,
                                node: es_v[j as int].node,
                            }));
                        }
                        (es, Result::Ok(()))
                    },
                }
            } else {
                let entry = es.remove(j);
                proof {
                    assert(entry == es0[j as int]);
                    assert(es_v[j as int].node == node_view(entry.node));
                }
                let FsEntry { name: ename, node: enode } = entry;
                match enode {
                    FsNode::File(c) => {
                        let ne = FsEntry { name: ename, node: FsNode::File(c) };
                        proof {
                            assert(ne == es0[j as int]);
                        }
                        es.insert(j, ne);
                        proof {
                            assert(es@ =~= es0);
                        }
                        (es, Result::Err(StoreError::PathNotFound))
                    },
                    FsNode::Dir(ces) => {
                        let (nces, st) = entries_rename_at(ces, segs, from + 1, new_name);
                        let ne = FsEntry { name: ename, node: FsNode::Dir(nces) };
                        es.insert(j, ne);
                        proof {
                            assert(es@ =~= es0.update(j as int, ne));
                            lemma_view_update(es0, es@, j as int, ne);
                        }
                        match st {
                            Result::Ok(()) => (es, Result::Ok(())),
                            Result::Err(e) => {
                                proof {
                                    assert(entry_view(ne) == es_v[j as int]);
                                    assert(entries_view(es@) =~= es_v);
                                }
                                (es, Result::Err(e))
                            },
                        }
                    },
                }
            }
        },
    }
}

} // verus!

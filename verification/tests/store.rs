use focosx_store::content::load_file_content;
use focosx_store::content::save_file_content;
use focosx_store::errors::StoreError;
use focosx_store::fresh::create_vault_at_path;
use focosx_store::fsmodel::FsNode;
use focosx_store::mutate::create_node_cmd;
use focosx_store::mutate::delete_node_cmd;
use focosx_store::mutate::rename_node_cmd;
use focosx_store::node::Node;
use focosx_store::node::NodeKind;
use focosx_store::resolver::find_vault_folder_for_file;
use focosx_store::resolver::load_tree;
use focosx_store::resolver::load_tree_from_vault_path;
use focosx_store::resolver::save_tree;
use focosx_store::resolver::save_tree_to_vault_path;
use focosx_store::resolver::TreeSource;
use focosx_store::world::add_mount;
use focosx_store::world::delete_vault;
use focosx_store::world::get_ai_dock_config;
use focosx_store::world::get_global_plugin_ids;
use focosx_store::world::get_installed_remote_plugins;
use focosx_store::world::get_preference;
use focosx_store::world::get_vaults;
use focosx_store::world::get_workspace_plugin_ids;
use focosx_store::world::new_world;
use focosx_store::world::read_json_file;
use focosx_store::world::remove_installed_remote_plugin;
use focosx_store::world::save_ai_dock_config;
use focosx_store::world::save_global_plugin_ids;
use focosx_store::world::save_installed_remote_plugin;
use focosx_store::world::save_preference;
use focosx_store::world::save_vaults;
use focosx_store::world::save_workspace_plugin_ids;
use focosx_store::world::write_json_file;
use focosx_store::world::Vault;
use focosx_store::world::World;

fn loaded_nodes(w: &World, vault_id: &str) -> Vec<Node> {
    match load_tree(w, vault_id) {
        TreeSource::Scanned(ns) => ns,
        TreeSource::Stored(ns) => ns,
    }
}

fn doc_node(id: &str, name: &str, kind: NodeKind) -> Node {
    Node {
        id: id.to_string(),
        name: name.to_string(),
        kind,
        children: None,
        content: None,
        parent_id: None,
    }
}

#[test]
fn scenario_vault_lifecycle() {
    let mut w = new_world();
    assert_eq!(get_vaults(&w).len(), 0);

    let v = create_vault_at_path(&mut w, "Notes", "/tmp/v1").unwrap();
    assert_eq!(get_vaults(&w).len(), 1);
    assert_eq!(get_vaults(&w)[0].name, "Notes");
    // Nothing was created inside the chosen directory.
    assert_eq!(w.disk.len(), 0);

    // The directory exists on disk.
    add_mount(&mut w, "/tmp/v1").unwrap();
    assert_eq!(w.disk[0].entries.len(), 0);

    let id = create_node_cmd(&mut w, &v, None, "a.md", NodeKind::File).unwrap();
    assert_eq!(id, format!("{}:a.md", v));
    let ns = match load_tree(&w, &v) {
        TreeSource::Scanned(ns) => ns,
        TreeSource::Stored(_) => panic!("a mounted path-backed vault must be scanned"),
    };
    assert_eq!(ns.len(), 1);
    assert_eq!(ns[0].id, id);
    assert_eq!(ns[0].name, "a.md");
    assert_eq!(ns[0].kind, NodeKind::File);
    assert!(ns[0].children.is_none());
    assert!(ns[0].content.is_none());
    assert!(ns[0].parent_id.is_none());

    let nid = rename_node_cmd(&mut w, &v, &id, "b.md").unwrap();
    assert_eq!(nid, format!("{}:b.md", v));
    let ns = loaded_nodes(&w, &v);
    assert_eq!(ns.len(), 1);
    assert!(ns.iter().all(|n| n.id != id));
    assert_eq!(ns[0].id, nid);

    // Content goes to the real file directly, overwriting it.
    save_file_content(&mut w, &nid, "{\"text\":\"hi\"}").unwrap();
    match &w.disk[0].entries[0].node {
        FsNode::File(c) => assert_eq!(c, "{\"text\":\"hi\"}"),
        FsNode::Dir(_) => panic!("b.md must be a file"),
    }
    assert_eq!(load_file_content(&w, &nid).unwrap(), "{\"text\":\"hi\"}");

    // Deleting the vault removes derived state only.
    delete_vault(&mut w, &v);
    assert_eq!(get_vaults(&w).len(), 1);
    match &w.disk[0].entries[0].node {
        FsNode::File(c) => assert_eq!(c, "{\"text\":\"hi\"}"),
        FsNode::Dir(_) => panic!("the user's directory must be untouched"),
    }
}

#[test]
fn load_orders_folders_first_then_names() {
    let mut w = new_world();
    let v = create_vault_at_path(&mut w, "W", "/tmp/ord").unwrap();
    add_mount(&mut w, "/tmp/ord").unwrap();
    create_node_cmd(&mut w, &v, None, "b.md", NodeKind::File).unwrap();
    create_node_cmd(&mut w, &v, None, "a.md", NodeKind::File).unwrap();
    create_node_cmd(&mut w, &v, None, "z", NodeKind::Folder).unwrap();
    create_node_cmd(&mut w, &v, None, "c", NodeKind::Folder).unwrap();
    create_node_cmd(&mut w, &v, None, "draw.canvas", NodeKind::Canvas).unwrap();
    let names: Vec<String> = loaded_nodes(&w, &v).iter().map(|n| n.name.clone()).collect();
    assert_eq!(names, vec!["c", "z", "a.md", "b.md", "draw.canvas"]);
}

#[test]
fn scanned_kinds_follow_shape_and_extension() {
    let mut w = new_world();
    let v = create_vault_at_path(&mut w, "W", "/tmp/kinds").unwrap();
    add_mount(&mut w, "/tmp/kinds").unwrap();
    create_node_cmd(&mut w, &v, None, "d", NodeKind::Folder).unwrap();
    create_node_cmd(&mut w, &v, None, "n.md", NodeKind::File).unwrap();
    create_node_cmd(&mut w, &v, None, "sketch.canvas", NodeKind::File).unwrap();
    let ns = loaded_nodes(&w, &v);
    assert_eq!(ns[0].kind, NodeKind::Folder);
    assert!(ns[0].children.is_some());
    assert_eq!(ns[1].kind, NodeKind::File);
    assert!(ns[1].children.is_none());
    // The extension decides the kind, not the kind the caller asked for.
    assert_eq!(ns[2].kind, NodeKind::Canvas);
}

#[test]
fn folder_creation_is_idempotent() {
    let mut w = new_world();
    let v = create_vault_at_path(&mut w, "W", "/tmp/idem").unwrap();
    add_mount(&mut w, "/tmp/idem").unwrap();
    let first = create_node_cmd(&mut w, &v, None, "notes", NodeKind::Folder).unwrap();
    let second = create_node_cmd(&mut w, &v, None, "notes", NodeKind::Folder).unwrap();
    assert_eq!(first, second);
    let ns = loaded_nodes(&w, &v);
    assert_eq!(ns.len(), 1);
    assert_eq!(ns[0].name, "notes");
}

#[test]
fn nested_creation_builds_missing_directories() {
    let mut w = new_world();
    let v = create_vault_at_path(&mut w, "W", "/tmp/nest").unwrap();
    add_mount(&mut w, "/tmp/nest").unwrap();
    let folder = create_node_cmd(&mut w, &v, None, "a", NodeKind::Folder).unwrap();
    let id = create_node_cmd(&mut w, &v, Some(folder.clone()), "b.md", NodeKind::File).unwrap();
    assert_eq!(id, format!("{}:a/b.md", v));
    let ns = loaded_nodes(&w, &v);
    assert_eq!(ns.len(), 1);
    let children = ns[0].children.as_ref().unwrap();
    assert_eq!(children.len(), 1);
    assert_eq!(children[0].id, id);
    assert_eq!(children[0].parent_id.as_deref(), Some(folder.as_str()));
}

#[test]
fn deletion_is_complete_at_every_depth() {
    let mut w = new_world();
    let v = create_vault_at_path(&mut w, "W", "/tmp/del").unwrap();
    add_mount(&mut w, "/tmp/del").unwrap();
    let folder = create_node_cmd(&mut w, &v, None, "dir", NodeKind::Folder).unwrap();
    create_node_cmd(&mut w, &v, Some(folder.clone()), "x.md", NodeKind::File).unwrap();
    create_node_cmd(&mut w, &v, None, "keep.md", NodeKind::File).unwrap();
    delete_node_cmd(&mut w, &v, &folder).unwrap();
    let ns = loaded_nodes(&w, &v);
    assert_eq!(ns.len(), 1);
    assert!(ns.iter().all(|n| n.id != folder));
    assert!(ns
        .iter()
        .all(|n| !n.id.starts_with(&format!("{}/", folder))));
    // Deleting again is an error: nothing stands there any more.
    assert_eq!(
        delete_node_cmd(&mut w, &v, &folder),
        Err(StoreError::PathNotFound)
    );
}

#[test]
fn rename_refuses_taken_destination() {
    let mut w = new_world();
    let v = create_vault_at_path(&mut w, "W", "/tmp/ren").unwrap();
    add_mount(&mut w, "/tmp/ren").unwrap();
    let a = create_node_cmd(&mut w, &v, None, "a.md", NodeKind::File).unwrap();
    create_node_cmd(&mut w, &v, None, "b.md", NodeKind::File).unwrap();
    assert_eq!(
        rename_node_cmd(&mut w, &v, &a, "b.md"),
        Err(StoreError::DestinationExists)
    );
    // Renaming to its own name succeeds and keeps the identifier.
    assert_eq!(rename_node_cmd(&mut w, &v, &a, "a.md").unwrap(), a);
}

#[test]
fn mutation_needs_a_path_backed_vault_with_its_directory() {
    let mut w = new_world();
    assert_eq!(
        create_node_cmd(&mut w, "nobody", None, "a.md", NodeKind::File),
        Err(StoreError::VaultNotFound)
    );
    let v = create_vault_at_path(&mut w, "W", "/tmp/gone").unwrap();
    assert_eq!(
        create_node_cmd(&mut w, &v, None, "a.md", NodeKind::File),
        Err(StoreError::VaultPathMissing)
    );
    let r = create_vault_at_path(&mut w, "R", "relative/dir").unwrap();
    assert_eq!(
        create_node_cmd(&mut w, &r, None, "a.md", NodeKind::File),
        Err(StoreError::VaultNotFound)
    );
    add_mount(&mut w, "/tmp/gone").unwrap();
    assert_eq!(
        create_node_cmd(&mut w, &v, None, "bad/name", NodeKind::File),
        Err(StoreError::InvalidPath)
    );
    assert_eq!(
        rename_node_cmd(&mut w, &v, "x", ""),
        Err(StoreError::InvalidPath)
    );
}

#[test]
fn hidden_entries_never_appear_at_any_depth() {
    let mut w = new_world();
    let v = create_vault_at_path(&mut w, "W", "/tmp/hid").unwrap();
    add_mount(&mut w, "/tmp/hid").unwrap();
    create_node_cmd(&mut w, &v, None, ".git", NodeKind::Folder).unwrap();
    create_node_cmd(&mut w, &v, None, ".DS_Store", NodeKind::File).unwrap();
    let folder = create_node_cmd(&mut w, &v, None, "dir", NodeKind::Folder).unwrap();
    create_node_cmd(&mut w, &v, Some(folder.clone()), ".hidden", NodeKind::File).unwrap();
    create_node_cmd(&mut w, &v, Some(folder), "seen.md", NodeKind::File).unwrap();
    let ns = loaded_nodes(&w, &v);
    assert_eq!(ns.len(), 1);
    assert_eq!(ns[0].name, "dir");
    let children = ns[0].children.as_ref().unwrap();
    assert_eq!(children.len(), 1);
    assert_eq!(children[0].name, "seen.md");
}

#[test]
fn save_tree_is_a_no_op_for_live_path_backed_vaults() {
    let mut w = new_world();
    let v = create_vault_at_path(&mut w, "W", "/tmp/noop").unwrap();
    add_mount(&mut w, "/tmp/noop").unwrap();
    create_node_cmd(&mut w, &v, None, "real.md", NodeKind::File).unwrap();
    save_tree(
        &mut w,
        &v,
        vec![doc_node("fake", "fake.md", NodeKind::File)],
    );
    let ns = loaded_nodes(&w, &v);
    assert_eq!(ns.len(), 1);
    assert_eq!(ns[0].name, "real.md");
    assert_eq!(w.trees.len(), 0);
}

#[test]
fn app_managed_vaults_use_the_persisted_document() {
    let mut w = new_world();
    let v = create_vault_at_path(&mut w, "W", "relative/dir").unwrap();
    assert!(loaded_nodes(&w, &v).is_empty());
    save_tree(&mut w, &v, vec![doc_node("n1", "one.md", NodeKind::File)]);
    let ns = loaded_nodes(&w, &v);
    assert_eq!(ns.len(), 1);
    assert_eq!(ns[0].id, "n1");
    // A path-backed vault whose directory is absent also reads the document.
    let p = create_vault_at_path(&mut w, "P", "/tmp/unmounted").unwrap();
    save_tree(&mut w, &p, vec![doc_node("n2", "two.md", NodeKind::File)]);
    assert_eq!(loaded_nodes(&w, &p)[0].id, "n2");
    // Deleting the vault drops its persisted document.
    delete_vault(&mut w, &v);
    assert!(loaded_nodes(&w, &v).is_empty());
}

#[test]
fn content_resolution_prefers_the_real_file() {
    let mut w = new_world();
    let v = create_vault_at_path(&mut w, "W", "/tmp/cont").unwrap();
    add_mount(&mut w, "/tmp/cont").unwrap();
    let id = create_node_cmd(&mut w, &v, None, "n.md", NodeKind::File).unwrap();
    assert_eq!(load_file_content(&w, &id).unwrap(), "");
    save_file_content(&mut w, &id, "body").unwrap();
    assert_eq!(load_file_content(&w, &id).unwrap(), "body");
    // A missing file reads as empty, never as an error.
    let ghost_id = format!("{}:missing.md", v);
    assert_eq!(load_file_content(&w, &ghost_id).unwrap(), "");
    // A folder cannot be read as content.
    let folder = create_node_cmd(&mut w, &v, None, "dir", NodeKind::Folder).unwrap();
    assert_eq!(
        load_file_content(&w, &folder),
        Err(StoreError::IsADirectory)
    );
}

#[test]
fn legacy_content_prefers_the_hosting_vault() {
    let mut w = new_world();
    create_vault_at_path(&mut w, "W", "/tmp/leg").unwrap();
    add_mount(&mut w, "/tmp/leg").unwrap();
    // No vault hosts the id yet: the private store holds it.
    save_file_content(&mut w, "legacy-1", "private").unwrap();
    assert_eq!(load_file_content(&w, "legacy-1").unwrap(), "private");
    assert_eq!(w.contents.len(), 1);
    // A snapshot naming the id makes the vault host it.
    save_tree_to_vault_path(
        &mut w,
        "/tmp/leg",
        vec![doc_node("legacy-2", "two.md", NodeKind::File)],
    )
    .unwrap();
    assert_eq!(
        find_vault_folder_for_file(&w, "legacy-2").as_deref(),
        Some("/tmp/leg")
    );
    assert_eq!(find_vault_folder_for_file(&w, "legacy-1"), None);
    save_file_content(&mut w, "legacy-2", "co-located").unwrap();
    assert_eq!(load_file_content(&w, "legacy-2").unwrap(), "co-located");
    assert_eq!(w.disk[0].meta_contents.len(), 1);
    assert_eq!(w.contents.len(), 1);
    // The snapshot itself reads back.
    let snap = load_tree_from_vault_path(&w, "/tmp/leg");
    assert_eq!(snap.len(), 1);
    assert_eq!(snap[0].id, "legacy-2");
    assert!(load_tree_from_vault_path(&w, "/tmp/other").is_empty());
}

#[test]
fn registry_refuses_duplicate_identifiers() {
    let mut w = new_world();
    let dup = vec![
        Vault {
            id: "same".to_string(),
            name: "A".to_string(),
            path: None,
            created_at: 1,
        },
        Vault {
            id: "same".to_string(),
            name: "B".to_string(),
            path: None,
            created_at: 2,
        },
    ];
    assert_eq!(save_vaults(&mut w, dup), Err(StoreError::DuplicateId));
    assert_eq!(get_vaults(&w).len(), 0);
    let ok = vec![Vault {
        id: "one".to_string(),
        name: "A".to_string(),
        path: Some("/tmp/x".to_string()),
        created_at: 1,
    }];
    assert_eq!(save_vaults(&mut w, ok), Ok(()));
    assert_eq!(get_vaults(&w).len(), 1);
}

#[test]
fn documents_preferences_and_plugins_round_trip() {
    let mut w = new_world();
    assert_eq!(read_json_file(&w, "anything.json"), "");
    write_json_file(&mut w, "anything.json", "{\"k\":1}");
    assert_eq!(read_json_file(&w, "anything.json"), "{\"k\":1}");

    assert_eq!(get_preference(&w, "theme"), "");
    save_preference(&mut w, "theme", "dark");
    save_preference(&mut w, "theme", "light");
    assert_eq!(get_preference(&w, "theme"), "light");
    assert_eq!(w.prefs.len(), 1);

    assert_eq!(get_global_plugin_ids(&w), "");
    save_global_plugin_ids(&mut w, "[\"p1\"]");
    assert_eq!(get_global_plugin_ids(&w), "[\"p1\"]");

    assert_eq!(get_ai_dock_config(&w), "");
    save_ai_dock_config(&mut w, "{\"open\":true}");
    assert_eq!(get_ai_dock_config(&w), "{\"open\":true}");

    save_workspace_plugin_ids(&mut w, "v9", "[\"wp\"]");
    assert_eq!(get_workspace_plugin_ids(&w, "v9"), "[\"wp\"]");
    delete_vault(&mut w, "v9");
    assert_eq!(get_workspace_plugin_ids(&w, "v9"), "");

    save_installed_remote_plugin(&mut w, "plug", "{\"id\":\"plug\"}");
    save_installed_remote_plugin(&mut w, "plug", "{\"id\":\"plug\",\"v\":2}");
    assert_eq!(get_installed_remote_plugins(&w).len(), 1);
    assert_eq!(get_installed_remote_plugins(&w)[0].text, "{\"id\":\"plug\",\"v\":2}");
    remove_installed_remote_plugin(&mut w, "plug");
    assert_eq!(get_installed_remote_plugins(&w).len(), 0);
}

#[test]
fn resolve_returns_the_descriptor_or_nothing() {
    let mut w = new_world();
    let v = create_vault_at_path(&mut w, "Here", "/tmp/res").unwrap();
    let d = focosx_store::world::resolve_vault(&w, &v).unwrap();
    assert_eq!(d.name, "Here");
    assert_eq!(d.path.as_deref(), Some("/tmp/res"));
    assert!(focosx_store::world::resolve_vault(&w, "unknown").is_none());
}

#[test]
fn content_write_errors_are_reported() {
    let mut w = new_world();
    let v = create_vault_at_path(&mut w, "W", "/tmp/cw").unwrap();
    // Backing directory absent: writing scoped content is refused.
    assert_eq!(
        save_file_content(&mut w, &format!("{}:a.md", v), "x"),
        Err(StoreError::VaultPathMissing)
    );
    add_mount(&mut w, "/tmp/cw").unwrap();
    // A malformed relative path is refused.
    assert_eq!(
        save_file_content(&mut w, &format!("{}:a//b.md", v), "x"),
        Err(StoreError::InvalidPath)
    );
    // Writing through a folder's identifier is refused.
    let folder = create_node_cmd(&mut w, &v, None, "dir", NodeKind::Folder).unwrap();
    assert_eq!(
        save_file_content(&mut w, &folder, "x"),
        Err(StoreError::IsADirectory)
    );
    // A file standing mid-path blocks traversal.
    let file = create_node_cmd(&mut w, &v, None, "f.md", NodeKind::File).unwrap();
    assert_eq!(
        save_file_content(&mut w, &format!("{}/under.md", file), "x"),
        Err(StoreError::NotADirectory)
    );
}

#[test]
fn children_are_ordered_at_every_depth() {
    let mut w = new_world();
    let v = create_vault_at_path(&mut w, "W", "/tmp/deep").unwrap();
    add_mount(&mut w, "/tmp/deep").unwrap();
    let d = create_node_cmd(&mut w, &v, None, "d", NodeKind::Folder).unwrap();
    create_node_cmd(&mut w, &v, Some(d.clone()), "z.md", NodeKind::File).unwrap();
    create_node_cmd(&mut w, &v, Some(d.clone()), "a.md", NodeKind::File).unwrap();
    create_node_cmd(&mut w, &v, Some(d.clone()), "sub", NodeKind::Folder).unwrap();
    let ns = loaded_nodes(&w, &v);
    let names: Vec<String> = ns[0]
        .children
        .as_ref()
        .unwrap()
        .iter()
        .map(|n| n.name.clone())
        .collect();
    assert_eq!(names, vec!["sub", "a.md", "z.md"]);
}

#[test]
fn renaming_a_folder_moves_every_nested_identifier() {
    let mut w = new_world();
    let v = create_vault_at_path(&mut w, "W", "/tmp/rf").unwrap();
    add_mount(&mut w, "/tmp/rf").unwrap();
    let d = create_node_cmd(&mut w, &v, None, "old", NodeKind::Folder).unwrap();
    create_node_cmd(&mut w, &v, Some(d.clone()), "x.md", NodeKind::File).unwrap();
    let nd = rename_node_cmd(&mut w, &v, &d, "new").unwrap();
    assert_eq!(nd, format!("{}:new", v));
    let ns = loaded_nodes(&w, &v);
    assert_eq!(ns[0].id, nd);
    let child = &ns[0].children.as_ref().unwrap()[0];
    assert_eq!(child.id, format!("{}:new/x.md", v));
    assert_eq!(child.parent_id.as_deref(), Some(nd.as_str()));
}

#[test]
fn scoped_id_of_an_unknown_vault_falls_back_to_the_private_store() {
    let mut w = new_world();
    assert_eq!(load_file_content(&w, "ghost:x.md").unwrap(), "");
    save_file_content(&mut w, "ghost:x.md", "kept").unwrap();
    assert_eq!(load_file_content(&w, "ghost:x.md").unwrap(), "kept");
    assert_eq!(w.contents.len(), 1);
    assert_eq!(w.disk.len(), 0);
}

#[test]
fn unmounted_path_backed_vault_reads_empty_content() {
    let mut w = new_world();
    let v = create_vault_at_path(&mut w, "W", "/tmp/away").unwrap();
    assert_eq!(
        load_file_content(&w, &format!("{}:n.md", v)).unwrap(),
        ""
    );
}

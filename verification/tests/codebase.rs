use vid::codebase::config::{default_aspect_ratio, DefProject, VidToml, VidType};
use vid::codebase::{AddPackageError, Codebase};
use vid::pools::modules::FsEntry;

fn file(dir: &str, file_name: &str, contents: &str) -> FsEntry {
    let is_vid = file_name.ends_with(".vid") && file_name.len() > 4;
    let stem = match file_name.rfind('.') {
        Some(i) if i > 0 => &file_name[..i],
        _ => file_name,
    };
    FsEntry {
        path: format!("{dir}/{file_name}"),
        name: stem.to_string(),
        is_dir: false,
        vid_ext: is_vid,
        contents: if is_vid { Some(contents.to_string()) } else { None },
        children: Vec::new(),
    }
}

fn dir(parent: &str, name: &str, children: Vec<FsEntry>) -> FsEntry {
    FsEntry {
        path: format!("{parent}/{name}"),
        name: name.to_string(),
        is_dir: true,
        vid_ext: false,
        contents: None,
        children,
    }
}

fn project(name: &str) -> VidToml {
    VidToml {
        ty: VidType::project(DefProject {
            name: name.to_string(),
            aspect_ratio: default_aspect_ratio(),
        }),
        packages: Vec::new(),
    }
}

#[test]
fn create_codebase() {
    let root = "/tmp/create_codebase";
    let pkg = FsEntry {
        path: root.to_string(),
        name: "create_codebase".to_string(),
        is_dir: true,
        vid_ext: false,
        contents: None,
        children: vec![
            file(root, "vid.toml", ""),
            file(root, "main.vid", ""),
            // This one should be ignored
            file(root, "not-a-vid-file.txt", ""),
            // Empty directories should still be included
            dir(root, "empty", vec![]),
            // Create both a shadow.vid file and a shadow directory
            file(root, "shadow.vid", "shadow data"),
            dir(root, "shadow", vec![file(&format!("{root}/shadow"), "another.vid", "")]),
        ],
    };

    let mut codebase = Codebase::new();
    codebase.add_package(&pkg, project("create_codebase_test")).unwrap();

    let pkgs = &codebase.packages;
    assert_eq!(pkgs.len(), 1);
    assert!(pkgs.iter().any(|p| p.0 == "create_codebase_test"));

    let pkg_id = pkgs.iter().find(|p| p.0 == "create_codebase_test").unwrap().1.root_id;
    let subs = codebase.modules.get_submodules_for(pkg_id);
    assert_eq!(subs.len(), 3);

    assert!(subs.iter().find(|s| s.0 == "main").is_some());
    assert!(subs.iter().find(|s| s.0 == "empty").is_some());
    assert!(subs.iter().find(|s| s.0 == "shadow").is_some());
    assert!(subs.iter().find(|s| s.0 == "not-a-vid-file").is_none());

    let shadow_id = subs.iter().find(|s| s.0 == "shadow").unwrap().1;

    assert_eq!(codebase.modules.get(shadow_id).data, Some("shadow data".into()));
    assert_eq!(codebase.modules.get(shadow_id).path, format!("{root}/shadow.vid"));

    let shadow_subs = codebase.modules.get_submodules_for(shadow_id);
    assert_eq!(shadow_subs.len(), 1);
    assert_eq!(shadow_subs[0].0, "another");

    assert_eq!(codebase.modules.get_full_mod_name(pkg_id), "create_codebase_test");
    assert_eq!(codebase.modules.get_full_mod_name(shadow_id), "create_codebase_test::shadow");
    assert_eq!(
        codebase.modules.get_full_mod_name(shadow_subs[0].1),
        "create_codebase_test::shadow::another"
    );
}

#[test]
fn directory_before_file_takes_the_file_path() {
    let root = "/tmp/order";
    let pkg = dir("/tmp", "order", vec![
        dir(root, "cats", vec![file(&format!("{root}/cats"), "kitten.vid", "meow")]),
        file(root, "cats.vid", "cat data"),
    ]);
    let mut codebase = Codebase::new();
    let name = codebase.add_package(&pkg, project("order")).unwrap();
    assert_eq!(name, "order");
    let root_id = codebase.packages[0].1.root_id;
    let cats = codebase.modules.get_submodule(root_id, "cats").unwrap();
    assert_eq!(codebase.modules.get(cats).path, format!("{root}/cats.vid"));
    assert_eq!(codebase.modules.get(cats).data, Some("cat data".into()));
    let kitten = codebase.modules.get_submodule(cats, "kitten").unwrap();
    assert_eq!(codebase.modules.get(kitten).data, Some("meow".into()));
    assert_eq!(codebase.modules.get_full_mod_name(kitten), "order::cats::kitten");
    assert_eq!(codebase.modules.all_ids().len(), 3);
}

#[test]
fn duplicate_package_name_is_refused() {
    let mut codebase = Codebase::new();
    let a = dir("/tmp", "a", vec![]);
    let b = dir("/tmp", "b", vec![]);
    assert!(codebase.add_package(&a, project("same")).is_ok());
    match codebase.add_package(&b, project("same")) {
        Err(AddPackageError::DuplicateName(n)) => assert_eq!(n, "same"),
        other => panic!("expected a duplicate name error, got {other:?}"),
    }
    assert_eq!(codebase.packages.len(), 1);
    assert_eq!(codebase.modules.all_ids().len(), 1);
}

#[test]
fn test_package_and_submodule_lookup() {
    let (codebase, id) = Codebase::new_with_test_package("pkg", "let a = 1;");
    assert_eq!(codebase.packages.len(), 1);
    assert_eq!(codebase.packages[0].0, "pkg");
    assert_eq!(codebase.packages[0].1.config.name(), "pkg");
    assert_eq!(codebase.modules.get(id).data.as_deref(), Some("let a = 1;"));
    assert_eq!(codebase.modules.get_full_mod_name(id), "pkg");
    assert!(codebase.modules.get_submodule(id, "nothing").is_none());
    assert!(codebase.modules.get_submodules_for(id).is_empty());
}

#[test]
fn default_config() {
    assert_eq!(default_aspect_ratio(), "16:9");
    let cfg = VidToml::new_test("video");
    assert_eq!(cfg.name(), "video");
    match cfg.ty {
        VidType::project(p) => assert_eq!(p.aspect_ratio, "16:9"),
        VidType::package(_) => panic!(),
    }
}

#[test]
fn tokenize_module_without_text() {
    let mut codebase = Codebase::new();
    let pkg = dir("/tmp", "nodata", vec![]);
    codebase.add_package(&pkg, project("nodata")).unwrap();
    let root = codebase.packages[0].1.root_id;
    assert!(codebase.tokenize_mod(root).is_none());
}

#[test]
fn entries_size_counts_every_entry() {
    let tree = vec![
        file("p", "a.vid", "x"),
        dir("p", "sub", vec![file("p/sub", "b.vid", "y"), file("p/sub", "c.vid", "z")]),
    ];
    assert_eq!(vid::pools::modules::entries_size_upto(&tree, 100), 4);
    assert_eq!(vid::pools::modules::entries_size_upto(&tree, 3), 3);
    assert_eq!(vid::pools::modules::entries_size_upto(&Vec::new(), 100), 0);
}

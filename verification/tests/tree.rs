use quantam_fs::error::Result;
use quantam_fs::ids::FileId;
use quantam_fs::store::tree::{path_components, validate_name, DirectoryTree, MAX_COMPONENT_BYTES};

#[test]
fn paths_are_strict_byte_exact_and_case_sensitive() -> Result<()> {
    let root = FileId([1; 32]);
    let mut tree = DirectoryTree::new(root);
    tree.link(root, "é", FileId([2; 32]), false)?;
    tree.link(root, "e\u{301}", FileId([3; 32]), false)?;
    tree.link(root, "A", FileId([4; 32]), false)?;
    tree.link(root, "a", FileId([5; 32]), false)?;
    assert_ne!(tree.resolve("/é")?, tree.resolve("e\u{301}")?);
    assert_ne!(tree.resolve("A")?, tree.resolve("a")?);
    for invalid in ["../x", "a//b", "a/./b", "a/../b", "a\\b", "C:/x", "a\0b"] {
        assert!(tree.resolve(invalid).is_err());
    }
    assert!(tree.link(root, "C:", FileId([6; 32]), false).is_err());
    Ok(())
}

#[test]
fn directory_unlink_and_descendant_rename_fail() -> Result<()> {
    let root = FileId([10; 32]);
    let a = FileId([11; 32]);
    let b = FileId([12; 32]);
    let mut tree = DirectoryTree::new(root);
    tree.link(root, "a", a, true)?;
    tree.link(a, "b", b, true)?;
    assert!(tree.unlink(root, "a").is_err());
    assert!(tree.rename(root, "a", b, "a").is_err());
    tree.unlink(a, "b")?;
    assert_eq!(tree.unlink(root, "a")?, a);
    Ok(())
}

#[test]
fn raw_tree_operations_enforce_full_path_limit() -> Result<()> {
    let root = FileId([20; 32]);
    let mut tree = DirectoryTree::new(root);
    let component = "x".repeat(MAX_COMPONENT_BYTES);
    let mut parent = root;
    for value in 21..=36 {
        let child = FileId([value; 32]);
        tree.link(parent, &component, child, true)?;
        parent = child;
    }
    let before = tree.dirents();
    assert!(tree
        .link(parent, &component, FileId([37; 32]), true)
        .is_err());
    assert_eq!(tree.dirents(), before);
    Ok(())
}

#[test]
fn link_then_unlink_restores_the_tree() -> Result<()> {
    let root = FileId([40; 32]);
    let mut tree = DirectoryTree::new(root);
    tree.link(root, "keep", FileId([41; 32]), false)?;
    let before = tree.dirents();
    tree.link(root, "new", FileId([42; 32]), false)?;
    assert_eq!(tree.resolve("new")?, FileId([42; 32]));
    assert_eq!(tree.unlink(root, "new")?, FileId([42; 32]));
    assert_eq!(tree.dirents(), before);
    assert!(tree.resolve("new").is_err());
    Ok(())
}

#[test]
fn rename_moves_a_file_and_refuses_an_occupied_target() -> Result<()> {
    let root = FileId([50; 32]);
    let dir = FileId([51; 32]);
    let file = FileId([52; 32]);
    let mut tree = DirectoryTree::new(root);
    tree.link(root, "d", dir, true)?;
    tree.link(root, "f", file, false)?;
    tree.rename(root, "f", dir, "g")?;
    assert_eq!(tree.resolve("d/g")?, file);
    assert!(tree.resolve("f").is_err());
    tree.link(root, "h", FileId([53; 32]), false)?;
    assert!(tree.rename(root, "h", dir, "g").is_err());
    assert!(tree.is_linked_file(&file));
    assert!(tree.is_dir(&dir));
    Ok(())
}

#[test]
fn names_and_components_are_validated() {
    assert!(validate_name("ok").is_ok());
    assert!(validate_name("").is_err());
    assert!(validate_name(".").is_err());
    assert!(validate_name("..").is_err());
    assert!(validate_name("a/b").is_err());
    assert!(validate_name(&"x".repeat(MAX_COMPONENT_BYTES + 1)).is_err());
    assert_eq!(path_components("/a/b").unwrap(), vec!["a", "b"]);
    assert!(path_components("").unwrap().is_empty());
    assert!(path_components("a//b").is_err());
}

#[test]
fn a_changed_tree_reopens_from_its_entries() {
    let root = FileId([0x61; 32]);
    let mut tree = DirectoryTree::new(root);
    tree.link(root, "a", FileId([0x62; 32]), true).unwrap();
    tree.link(FileId([0x62; 32]), "f", FileId([0x63; 32]), false).unwrap();
    tree.link(root, "b", FileId([0x64; 32]), true).unwrap();
    tree.rename(FileId([0x62; 32]), "f", FileId([0x64; 32]), "g").unwrap();
    tree.unlink(root, "a").unwrap();
    let reopened = DirectoryTree::from_dirents(root, tree.dirents()).unwrap();
    assert!(reopened.dirents() == tree.dirents());
    assert_eq!(reopened.resolve("b/g").unwrap(), FileId([0x63; 32]));
}

use romhack::virtual_file_system::{Directory, File, Node};

#[test]
fn create_then_resolve_finds_the_same_file() {
    let mut root = Directory::new("root".to_owned());
    {
        let f = root.resolve_and_create_path("sub/dir/file.bin");
        f.data = vec![1, 2, 3];
    }
    let found = root.resolve_path("sub/dir/file.bin").unwrap();
    assert_eq!(found.name, "file.bin");
    assert_eq!(found.data, vec![1, 2, 3]);
}

#[test]
fn create_reuses_existing_folders_and_files() {
    let mut root = Directory::new("root".to_owned());
    root.resolve_and_create_path("a/x").data = vec![1];
    root.resolve_and_create_path("a/y").data = vec![2];
    root.resolve_and_create_path("a/x").data = vec![3];
    assert_eq!(root.children.len(), 1);
    assert_eq!(root.resolve_path("a/x").unwrap().data, vec![3]);
    assert_eq!(root.resolve_path("a/y").unwrap().data, vec![2]);
}

#[test]
fn resolve_misses_are_none() {
    let root = Directory::new("root".to_owned());
    assert!(root.resolve_path("nope").is_none());
    assert!(root.resolve_path("a/b").is_none());
}

#[test]
fn node_accessors_tell_files_from_directories() {
    let mut node = Node::File(File::new("f".to_owned(), vec![9]));
    assert!(node.as_file().is_some());
    assert!(node.as_directory().is_none());
    assert!(node.as_file_mut().is_some());
    assert!(node.as_directory_mut().is_none());
    let mut dir_node = Node::Directory(Box::new(Directory::new("d".to_owned())));
    assert!(dir_node.as_directory().is_some());
    assert!(dir_node.as_file().is_none());
    assert!(dir_node.as_directory_mut().is_some());
}

#[test]
fn main_dol_lives_in_the_system_directory() {
    let mut root = Directory::new("root".to_owned());
    root.resolve_and_create_path("&&systemdata/Start.dol").data = vec![7];
    {
        let dol = root.main_dol_mut().unwrap();
        assert_eq!(dol.name, "Start.dol");
        dol.data = vec![8];
    }
    assert_eq!(root.resolve_path("&&systemdata/Start.dol").unwrap().data, vec![8]);
    let mut empty = Directory::new("root".to_owned());
    assert!(empty.main_dol_mut().is_none());
}

#[test]
fn banner_is_found_by_its_fixed_name() {
    let mut root = Directory::new("root".to_owned());
    root.resolve_and_create_path("opening.bnr").data = vec![1];
    {
        let banner = root.banner_mut().unwrap();
        banner.data = vec![2];
    }
    assert_eq!(root.resolve_path("opening.bnr").unwrap().data, vec![2]);
    let mut empty = Directory::new("root".to_owned());
    assert!(empty.banner_mut().is_none());
}

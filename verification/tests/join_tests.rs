use splitter::join::{
    join_bytes, resolve_target, select_parts, unsplit_target, DirEntry, JoinError, JoinTarget,
    NamePart,
};
use splitter::naming::part_file_name;
use splitter::split::split_bytes;

fn file(dir: &str, name: &str) -> DirEntry {
    DirEntry { path: format!("{}/{}", dir, name), name: name.to_string(), is_file: true }
}

fn folder(dir: &str, name: &str) -> DirEntry {
    DirEntry { path: format!("{}/{}", dir, name), name: name.to_string(), is_file: false }
}

#[test]
fn target_needs_a_parent() {
    assert_eq!(resolve_target(None, NamePart::Text("foo".to_string())), Err(JoinError::NoParent));
    assert_eq!(resolve_target(None, NamePart::Absent), Err(JoinError::NoParent));
    assert_eq!(resolve_target(None, NamePart::Undecodable), Err(JoinError::NoParent));
}

#[test]
fn target_needs_a_file_name() {
    assert_eq!(
        resolve_target(Some("dir".to_string()), NamePart::Absent),
        Err(JoinError::NoFileName)
    );
}

#[test]
fn target_needs_a_decodable_name() {
    assert_eq!(
        resolve_target(Some("dir".to_string()), NamePart::Undecodable),
        Err(JoinError::UndecodableName)
    );
}

#[test]
fn target_is_directory_and_base_name() {
    assert_eq!(
        resolve_target(Some("dir".to_string()), NamePart::Text("foo".to_string())),
        Ok(JoinTarget { dir: "dir".to_string(), base: "foo".to_string() })
    );
}

#[test]
fn errors_have_their_own_messages() {
    assert_eq!(JoinError::NoParent.message(), "Invalid file path provided");
    assert_eq!(JoinError::NoFileName.message(), "Invalid file name provided");
    assert_eq!(JoinError::UndecodableName.message(), "Non UTF-8 file name provided");
}

#[test]
fn unsplit_target_of_a_path_in_a_directory() {
    assert_eq!(
        unsplit_target("some/dir/foo.bin"),
        Ok(JoinTarget { dir: "some/dir".to_string(), base: "foo.bin".to_string() })
    );
}

#[test]
fn unsplit_target_of_a_bare_name_has_an_empty_directory() {
    assert_eq!(
        unsplit_target("foo"),
        Ok(JoinTarget { dir: "".to_string(), base: "foo".to_string() })
    );
}

#[test]
fn unsplit_target_without_parent() {
    assert_eq!(unsplit_target(""), Err(JoinError::NoParent));
    assert_eq!(unsplit_target("/"), Err(JoinError::NoParent));
}

#[test]
fn unsplit_target_without_file_name() {
    assert_eq!(unsplit_target("dir/.."), Err(JoinError::NoFileName));
}

#[test]
fn parts_are_put_in_sorted_order() {
    let entries = vec![file("d", "foo.part0002.split"), file("d", "foo.part0001.split")];
    assert_eq!(
        select_parts(&entries, "foo"),
        vec!["d/foo.part0001.split".to_string(), "d/foo.part0002.split".to_string()]
    );
}

#[test]
fn joining_two_parts_keeps_their_order() {
    let entries = vec![file("d", "foo.part0002.split"), file("d", "foo.part0001.split")];
    let order = select_parts(&entries, "foo");
    let mut parts: Vec<Vec<u8>> = Vec::new();
    for path in order.iter() {
        if path == "d/foo.part0001.split" {
            parts.push(vec![1, 2, 3]);
        } else {
            parts.push(vec![4, 5]);
        }
    }
    assert_eq!(join_bytes(&parts), vec![1, 2, 3, 4, 5]);
}

#[test]
fn no_parts_give_an_empty_selection_and_an_empty_file() {
    let none: Vec<DirEntry> = Vec::new();
    assert_eq!(select_parts(&none, "foo"), Vec::<String>::new());
    let others = vec![file("d", "bar.part0001.split"), folder("d", "foo.part0001.split")];
    assert_eq!(select_parts(&others, "foo"), Vec::<String>::new());
    assert_eq!(join_bytes(&Vec::new()), Vec::<u8>::new());
}

#[test]
fn only_regular_files_are_taken() {
    let entries = vec![
        folder("d", "foo.part0001.split"),
        file("d", "foo.part0002.split"),
        folder("d", "foo"),
    ];
    assert_eq!(select_parts(&entries, "foo"), vec!["d/foo.part0002.split".to_string()]);
}

#[test]
fn any_file_with_the_base_name_in_front_is_taken() {
    let entries = vec![
        file("d", "foo.part0001.split"),
        file("d", "foobar"),
        file("d", "foo"),
        file("d", "fo"),
        file("d", "xfoo"),
        file("d", "foo.txt"),
    ];
    assert_eq!(
        select_parts(&entries, "foo"),
        vec![
            "d/foo".to_string(),
            "d/foo.part0001.split".to_string(),
            "d/foo.txt".to_string(),
            "d/foobar".to_string(),
        ]
    );
}

#[test]
fn selection_goes_by_name_and_order_by_path() {
    let entries = vec![
        DirEntry { path: "z/1".to_string(), name: "foo1".to_string(), is_file: true },
        DirEntry { path: "a/2".to_string(), name: "foo2".to_string(), is_file: true },
        DirEntry { path: "foo".to_string(), name: "bar".to_string(), is_file: true },
    ];
    assert_eq!(select_parts(&entries, "foo"), vec!["a/2".to_string(), "z/1".to_string()]);
}

#[test]
fn equal_paths_are_all_kept() {
    let entries = vec![file("d", "foo"), file("d", "foo"), file("d", "foo.a")];
    assert_eq!(
        select_parts(&entries, "foo"),
        vec!["d/foo".to_string(), "d/foo".to_string(), "d/foo.a".to_string()]
    );
}

#[test]
fn join_concatenates_in_the_order_given() {
    assert_eq!(join_bytes(&vec![vec![1u8, 2], vec![], vec![3u8]]), vec![1u8, 2, 3]);
    assert_eq!(join_bytes(&vec![vec![9u8], vec![8u8]]), vec![9u8, 8]);
    assert_eq!(join_bytes(&vec![Vec::<u8>::new()]), Vec::<u8>::new());
}

#[test]
fn round_trip_through_names_and_a_shuffled_listing() {
    let mut data: Vec<u8> = Vec::new();
    let mut i: usize = 0;
    while i < 1000 {
        data.push((i % 251) as u8);
        i += 1;
    }
    let chunks = split_bytes(&data, 7).unwrap();
    let mut stored: Vec<(String, Vec<u8>)> = Vec::new();
    let mut entries: Vec<DirEntry> = Vec::new();
    let mut k: usize = 0;
    while k < chunks.len() {
        let name = part_file_name("data.bin", (k + 1) as u64);
        let path = part_file_name("dir/data.bin", (k + 1) as u64);
        stored.push((path.clone(), chunks[k].clone()));
        entries.push(DirEntry { path, name, is_file: true });
        k += 1;
    }
    entries.reverse();
    entries.swap(3, 77);
    entries.push(folder("dir", "data.bin.d"));
    entries.push(file("dir", "other"));
    let order = select_parts(&entries, "data.bin");
    assert_eq!(order.len(), chunks.len());
    let mut parts: Vec<Vec<u8>> = Vec::new();
    for path in order.iter() {
        let found = stored.iter().find(|entry| &entry.0 == path).unwrap();
        parts.push(found.1.clone());
    }
    assert_eq!(join_bytes(&parts), data);
}

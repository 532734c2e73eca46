use coalescing_store::file_util::{
    forward_slashes, get_temp_file, get_temp_filename, numbered_temp_filename,
    object_store_path_str, FileStep,
};
use std::collections::HashSet;
use std::path::PathBuf;

#[test]
fn backslashes_become_slashes() {
    assert_eq!(forward_slashes("D:\\data\\part-0.parquet"), "D:/data/part-0.parquet");
    assert_eq!(forward_slashes("\\\\"), "//");
    assert_eq!(forward_slashes(""), "");
    assert_eq!(object_store_path_str(&PathBuf::from("D:\\data\\x")), "D:/data/x");
}

#[test]
fn a_path_with_slashes_stays() {
    let text = "/home/\u{e9}t\u{e9}/\u{4e2d}/a b.parquet";
    assert_eq!(forward_slashes(text), text);
    assert_eq!(object_store_path_str(&PathBuf::from(text)), text);
}

#[test]
fn a_second_conversion_changes_nothing() {
    let once = forward_slashes("a\\b/c\\\\d");
    assert_eq!(once, "a/b/c//d");
    assert_eq!(forward_slashes(&once), once);
}

#[test]
fn numbers_for_names() {
    for n in [0, 7, 10, -1, -10, i16::MAX, i16::MIN] {
        let file = numbered_temp_filename(n);
        assert_eq!(file.dir, ["target", "debug", "testdata"]);
        assert_eq!(file.path, ["target", "debug", "testdata", n.to_string().as_str()]);
    }
}

#[test]
fn every_number_has_a_name_of_its_own() {
    let names: HashSet<String> = (i16::MIN..=i16::MAX)
        .map(|n| numbered_temp_filename(n).path.pop().unwrap())
        .collect();
    assert_eq!(names.len(), 65536);
}

#[test]
fn random_names_are_numbers_and_vary() {
    let names: HashSet<String> = (0..64)
        .map(|_| {
            let mut file = get_temp_filename();
            let name = file.path.pop().unwrap();
            assert_eq!(file.path, ["target", "debug", "testdata"]);
            assert_eq!(file.dir, file.path);
            assert_eq!(name.parse::<i16>().unwrap().to_string(), name);
            name
        })
        .collect();
    assert!(names.len() > 1);
}

#[test]
fn a_temp_file_is_made_in_five_steps() {
    let steps = get_temp_file("part.bin", b"content");
    assert_eq!(steps.len(), 5);
    let file = ["target", "debug", "testdata", "part.bin"];
    assert!(matches!(&steps[0], FileStep::CreateDirAll(dir) if dir[..] == file[..3]));
    assert!(matches!(&steps[1], FileStep::Create(path) if path[..] == file));
    assert!(matches!(&steps[2], FileStep::WriteAll(content) if *content == b"content"));
    assert!(matches!(&steps[3], FileStep::SyncAll));
    assert!(matches!(&steps[4], FileStep::OpenReadWrite(path) if path[..] == file));
}

#[test]
fn the_name_of_a_temp_file_is_taken_as_it_is() {
    for name in ["nosuch/x.bin", "", "..", "/tmp/x", "a\\b"] {
        let steps = get_temp_file(name, b"");
        let file = ["target", "debug", "testdata", name];
        assert!(matches!(&steps[0], FileStep::CreateDirAll(dir) if dir[..] == file[..3]));
        assert!(matches!(&steps[1], FileStep::Create(path) if path[..] == file));
        assert!(matches!(&steps[4], FileStep::OpenReadWrite(path) if path[..] == file));
    }
}

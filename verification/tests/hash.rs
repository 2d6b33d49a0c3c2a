use buildc::hash::TrackedFile;
use buildc::hash::hash_package;

fn file(path: &str, content: &[u8]) -> TrackedFile {
    TrackedFile { path: path.to_string(), content: content.to_vec() }
}

#[test]
fn digest_of_one_file_is_exact() {
    let files = vec![file("src/a.txt", b"hello")];
    let (digest, detail) = hash_package(&files);
    assert_eq!(detail, "5d41402abc4b2a76b9719d911017c592-src/a.txt");
    assert_eq!(digest, "abc3b325e0f77c37db129424c172164c");
    assert_eq!(digest.len(), 32);
}

#[test]
fn digest_of_two_files_is_exact() {
    let files = vec![file("src/a.txt", b"hello"), file("src/b.txt", b"world")];
    let (digest, detail) = hash_package(&files);
    assert_eq!(
        detail,
        "5d41402abc4b2a76b9719d911017c592-src/a.txt\n7d793037a0760186574b0282f2f435e7-src/b.txt"
    );
    assert_eq!(digest, "411651107a94010b8f908c4c5b60f83d");
}

#[test]
fn digest_of_no_files() {
    let files: Vec<TrackedFile> = vec![];
    let (digest, detail) = hash_package(&files);
    assert_eq!(detail, "");
    assert_eq!(digest, "d41d8cd98f00b204e9800998ecf8427e");
}

#[test]
fn digest_is_stable_across_calls() {
    let files = vec![file("src/a.txt", b"hello"), file("src/b.txt", b"world")];
    let (d1, _) = hash_package(&files);
    let (d2, _) = hash_package(&files);
    assert_eq!(d1, d2);
}

#[test]
fn digest_ignores_listing_order() {
    let forward = vec![file("src/a.txt", b"hello"), file("src/b.txt", b"world")];
    let backward = vec![file("src/b.txt", b"world"), file("src/a.txt", b"hello")];
    let (d1, detail1) = hash_package(&forward);
    let (d2, detail2) = hash_package(&backward);
    assert_eq!(d1, d2);
    assert_eq!(detail1, detail2);
}

#[test]
fn digest_changes_when_content_changes() {
    let before = vec![file("src/a.txt", b"hello"), file("src/b.txt", b"world")];
    let after = vec![file("src/a.txt", b"hullo"), file("src/b.txt", b"world")];
    let (d1, _) = hash_package(&before);
    let (d2, _) = hash_package(&after);
    assert_ne!(d1, d2);
    assert_eq!(d2, "281e06970963ddd4ac30dd83006cc495");
}

#[test]
fn digest_changes_when_a_file_is_added_or_removed() {
    let one = vec![file("src/a.txt", b"hello")];
    let two = vec![file("src/a.txt", b"hello"), file("src/b.txt", b"world")];
    let (d1, _) = hash_package(&one);
    let (d2, _) = hash_package(&two);
    assert_ne!(d1, d2);
}

#[test]
fn digest_does_not_depend_on_files_outside_the_hashed_set() {
    // An excluded file never enters the hashed list, so changing it
    // leaves the digest alone.
    let hashed = vec![file("src/a.txt", b"hello")];
    let (before, _) = hash_package(&hashed);
    // ... the excluded file changes on disk ...
    let (after, _) = hash_package(&hashed);
    assert_eq!(before, after);
}

use object_store::path::Path;
use prism::merged::{filename, filename_for, own_id, split_live, superseded, ObjectMeta};
use prism::paths::{directory_of, same_path};
use prism::writer::object_path;
use uuid::Uuid;

fn meta(name: &str) -> ObjectMeta {
    ObjectMeta {
        location: Path::from(format!("partition/{name}")),
        size: 1,
    }
}

fn names(files: &[ObjectMeta]) -> Vec<String> {
    files
        .iter()
        .map(|file| file.location.filename().unwrap().to_string())
        .collect()
}

/// A source id landing in the own-id slot would make the output look like it
/// replaces one fewer file than it does.
#[test]
fn superseded_skips_the_files_own_id() {
    assert_eq!(superseded("self.parquet"), Vec::<&str>::new());
    assert_eq!(superseded("self_a_b.parquet"), vec!["a", "b"]);
}

/// A failed delete leaves sources listed beside the merged file that already
/// holds their rows.
#[test]
fn split_live_separates_replaced_files() {
    let listing = vec![meta("a.parquet"), meta("b.parquet"), meta("m_a_b.parquet")];

    let (live, stale) = split_live(listing);
    assert_eq!(names(&live), vec!["m_a_b.parquet"]);
    assert_eq!(names(&stale), vec!["a.parquet", "b.parquet"]);
}

/// Merging merged files is the normal case after the first pass, so a name that
/// grew at every level would pass the key limit by level three.
#[test]
fn merged_names_do_not_compound() {
    let first = filename(&[meta("a.parquet"), meta("b.parquet")]);
    let second = filename(&[meta(&first), meta("c.parquet")]);

    assert_eq!(superseded(&second).len(), 2, "{second}");
}

#[test]
fn a_merged_name_is_its_id_and_those_it_replaced() {
    let id = Uuid::from_u128(0x0190_0000_0000_7000_8000_0000_0000_00ab);
    let name = filename_for(&id, &[meta("x_y_z.parquet"), meta("w.parquet")]);

    assert_eq!(name, "019000000000700080000000000000ab_x_w.parquet");
    assert_eq!(own_id(&name), "019000000000700080000000000000ab");
    assert_eq!(superseded(&name), vec!["x", "w"]);
    assert_eq!(own_id("plain"), "plain");
}

/// A new id each time, of version 7.
#[test]
fn a_new_name_has_a_new_id() {
    let one = filename(&[]);
    let other = filename(&[]);

    assert_eq!(one.len(), 40);
    assert_ne!(one, other);
    let id = Uuid::parse_str(own_id(&one)).unwrap();
    assert_eq!(id.get_version_num(), 7);
}

/// Nothing is replaced where nothing says so, and what has no name is not read.
#[test]
fn a_listing_without_merges_is_live() {
    let listing = vec![meta("a.parquet"), meta("b.parquet")];
    let (live, stale) = split_live(listing);
    assert_eq!(names(&live), vec!["a.parquet", "b.parquet"]);
    assert!(stale.is_empty());

    let root = ObjectMeta {
        location: Path::ROOT,
        size: 1,
    };
    let (live, stale) = split_live(vec![root]);
    assert!(live.is_empty());
    assert_eq!(stale.len(), 1);
}

/// A merge of merges hides both levels.
#[test]
fn a_chain_of_merges_leaves_the_last() {
    let listing = vec![
        meta("a.parquet"),
        meta("m_a_b.parquet"),
        meta("n_m_c.parquet"),
        meta("c.parquet"),
    ];
    let (live, stale) = split_live(listing);
    assert_eq!(names(&live), vec!["n_m_c.parquet"]);
    assert_eq!(names(&stale), vec!["a.parquet", "m_a_b.parquet", "c.parquet"]);
}

/// Hex in the name, and the directory as it was given.
#[test]
fn a_file_is_in_its_directory() {
    let id = Uuid::from_u128(0xff);
    let path = object_path("spans/partition=2026-08-17T00:00:00Z", &id);

    assert_eq!(
        path.as_ref(),
        "spans/partition=2026-08-17T00:00:00Z/000000000000000000000000000000ff.parquet"
    );
    let directory = directory_of(&path);
    assert_eq!(directory.as_ref(), "spans/partition=2026-08-17T00:00:00Z");
    assert!(same_path(
        &directory,
        &Path::from("spans/partition=2026-08-17T00:00:00Z")
    ));
    assert!(!same_path(&directory, &path));
}

/// What a path cannot hold as it is, it holds encoded, and empty segments are
/// left out.
#[test]
fn a_path_encodes_what_it_cannot_hold() {
    let id = Uuid::from_u128(1);
    let path = object_path("/a//b c/../100%/\u{e9}", &id);

    assert_eq!(
        path.as_ref(),
        "a/b c/%2E%2E/100%25/%C3%A9/00000000000000000000000000000001.parquet"
    );
    assert_eq!(directory_of(&path).as_ref(), "a/b c/%2E%2E/100%25/%C3%A9");
    assert_eq!(directory_of(&Path::from("alone")).as_ref(), "");
    assert_eq!(directory_of(&Path::ROOT).as_ref(), "");
}

use dataset_tag_store::dataset::{
    Dataset, DatasetError, DatasetErrorType, DatasetImage, DirEntry, ScannedImage,
};

fn strings(v: Vec<&str>) -> Vec<String> {
    v.into_iter().map(|s| s.to_string()).collect()
}

fn entry(name: &str, path: &str, is_file: bool) -> DirEntry {
    DirEntry { name: name.to_string(), path: path.to_string(), is_file }
}

fn sample_dataset() -> Dataset {
    Dataset {
        name: "shoot".to_string(),
        path: "shoot".to_string(),
        data: vec![
            DatasetImage {
                name: "a.png".to_string(),
                path: "shoot/a.png".to_string(),
                tags: strings(vec!["x"]),
            },
            DatasetImage {
                name: "b.jpg".to_string(),
                path: "shoot/b.jpg".to_string(),
                tags: strings(vec!["p", "q"]),
            },
        ],
    }
}

#[test]
fn scan_plan_skips_non_images_and_directories() {
    let entries = vec![
        entry("readme.md", "d/readme.md", true),
        entry("a.png", "d/a.png", true),
        entry("sub.png", "d/sub.png", false),
    ];
    let plan = dataset_tag_store::dataset::scan_plan(&entries);
    assert_eq!(plan.len(), 1);
    assert_eq!(plan[0].name, "a.png");
    assert_eq!(plan[0].path, "d/a.png");
    assert_eq!(plan[0].tag_path, "d/a.txt");
}

#[test]
fn missing_tag_file_yields_empty_tags() {
    // A tag file that had to be created holds the empty text; the image
    // it belongs to gets an empty tag list.
    let images = vec![ScannedImage {
        name: "a.png".to_string(),
        path: "d/a.png".to_string(),
        tag_content: String::new(),
    }];
    let d = Dataset::from_parts("d".to_string(), "d".to_string(), images);
    assert_eq!(d.name, "d");
    assert_eq!(d.path, "d");
    assert_eq!(d.data.len(), 1);
    assert_eq!(d.data[0].name, "a.png");
    assert_eq!(d.data[0].tags, Vec::<String>::new());
}

#[test]
fn from_parts_parses_each_tag_file() {
    let images = vec![
        ScannedImage {
            name: "a.png".to_string(),
            path: "d/a.png".to_string(),
            tag_content: "x. y".to_string(),
        },
        ScannedImage {
            name: "b.gif".to_string(),
            path: "d/b.gif".to_string(),
            tag_content: " p .q. ".to_string(),
        },
    ];
    let d = Dataset::from_parts("d".to_string(), "d".to_string(), images);
    assert_eq!(d.data.len(), 2);
    assert_eq!(d.data[0].tags, strings(vec!["x", "y"]));
    assert_eq!(d.data[1].tags, strings(vec!["p", "q"]));
}

#[test]
fn update_rewrites_the_tag_file_and_the_snapshot() {
    let d = sample_dataset();
    let new_image = DatasetImage {
        name: "a.png".to_string(),
        path: "shoot/a.png".to_string(),
        tags: strings(vec!["y", "z"]),
    };
    let (nd, w) = d.update_image(&new_image).expect("image is present");
    assert_eq!(w.path, "shoot/a.txt");
    assert_eq!(w.content, "y. z");
    assert_eq!(nd.data[0].tags, strings(vec!["y", "z"]));
    assert_eq!(nd.data[1].tags, strings(vec!["p", "q"]));
    // The snapshot the caller held is untouched.
    assert_eq!(d.data[0].tags, strings(vec!["x"]));
}

#[test]
fn update_of_unknown_image_is_impossible_error() {
    let d = sample_dataset();
    let stale = DatasetImage {
        name: "ghost.png".to_string(),
        path: "shoot/ghost.png".to_string(),
        tags: strings(vec!["y"]),
    };
    let err = d.update_image(&stale).expect_err("image is absent");
    assert!(matches!(err.type_, DatasetErrorType::ShouldBeImpossible));
    assert!(err.path.is_none());
    assert_eq!(d.data.len(), 2);
    assert_eq!(d.data[0].tags, strings(vec!["x"]));
}

#[test]
fn delete_of_unknown_image_is_a_tolerated_no_op() {
    // A stale image name is not an error for deletion: the snapshot comes
    // back unchanged and there is nothing to write.
    let d = sample_dataset();
    let (nd, w) = d
        .delete_image_tag("x".to_string(), "ghost.png".to_string())
        .expect("unknown image is a no-op");
    assert!(w.is_none());
    assert_eq!(nd.data.len(), 2);
    assert_eq!(nd.data[0].tags, strings(vec!["x"]));
    assert_eq!(nd.data[1].tags, strings(vec!["p", "q"]));
}

#[test]
fn delete_of_unknown_tag_is_impossible_error() {
    let d = sample_dataset();
    let err = d
        .delete_image_tag("missing".to_string(), "a.png".to_string())
        .expect_err("tag is absent");
    assert!(matches!(err.type_, DatasetErrorType::ShouldBeImpossible));
    assert!(err.path.is_none());
    assert_eq!(d.data[0].tags, strings(vec!["x"]));
}

#[test]
fn delete_writes_the_shortened_tag_list() {
    // The write that persists a deletion carries the tag list with the tag
    // already removed, so the file on disk matches the returned snapshot.
    let d = sample_dataset();
    let (nd, w) = d
        .delete_image_tag("p".to_string(), "b.jpg".to_string())
        .expect("tag is present");
    let w = w.expect("a write persists the deletion");
    assert_eq!(w.path, "shoot/b.txt");
    assert_eq!(w.content, "q");
    assert_eq!(nd.data[1].tags, strings(vec!["q"]));
    assert_eq!(nd.data[1].name, "b.jpg");
    assert_eq!(d.data[1].tags, strings(vec!["p", "q"]));
}

#[test]
fn delete_removes_only_the_first_occurrence() {
    let d = Dataset {
        name: "d".to_string(),
        path: "d".to_string(),
        data: vec![DatasetImage {
            name: "a.png".to_string(),
            path: "d/a.png".to_string(),
            tags: strings(vec!["t", "u", "t"]),
        }],
    };
    let (nd, w) = d
        .delete_image_tag("t".to_string(), "a.png".to_string())
        .expect("tag is present");
    assert_eq!(nd.data[0].tags, strings(vec!["u", "t"]));
    assert_eq!(w.expect("write").content, "u. t");
}

#[test]
fn batch_save_writes_every_file() {
    let d = sample_dataset();
    let writes = d.save_image_tags();
    assert_eq!(writes.len(), 2);
    assert_eq!(writes[0].path, "shoot/a.txt");
    assert_eq!(writes[0].content, "x");
    assert_eq!(writes[1].path, "shoot/b.txt");
    assert_eq!(writes[1].content, "p. q");
}

#[test]
fn error_messages_name_the_path() {
    let e = DatasetError::new(DatasetErrorType::Name, Some("d/\u{fffd}".to_string()));
    assert_eq!(e.message(), "Error reading name from path 'd/\u{fffd}'");
    let e = DatasetError::new(DatasetErrorType::Path, Some("p".to_string()));
    assert_eq!(e.message(), "Error reading path 'p'");
    let e = DatasetError::new(DatasetErrorType::Read, Some("d".to_string()));
    assert_eq!(e.message(), "Error reading dataset from path 'd'");
    let e = DatasetError::new(DatasetErrorType::Write, Some("d/a.txt".to_string()));
    assert_eq!(e.message(), "Error writing file to path 'd/a.txt'");
    let e = DatasetError::new(DatasetErrorType::UnknownRead, None);
    assert_eq!(e.message(), "Unknown error occurred while reading dataset from path ''");
    let e = DatasetError::new(DatasetErrorType::ShouldBeImpossible, None);
    assert_eq!(e.message(), "An error occurred that should be impossible to occur");
}

//! Creating and updating galleries from directory listings.

use static_gallery::gallery::{Collection, CollectionInput, Gallery};
use static_gallery::mi::fs::{sanitize, SourceFile};

// Sizes of the listings the tests below hand in.
const IN1: usize = 3;
const IN2: usize = 2;
const IN3: usize = 4;
const BG1: usize = 2;
const BG2: usize = 1;
const BG3: usize = 3;

/// A listing of `n` image files under the given directory prefix.  Each
/// file's bytes are its own path, so content is unique per path and stable
/// across repeated listings.
fn listing(prefix: &str, n: usize) -> Vec<SourceFile> {
    (0..n)
        .map(|k| {
            let path = format!("{}/img{:02}.jpg", prefix, k);
            let data = path.clone().into_bytes();
            SourceFile { path, data }
        })
        .collect()
}

fn dir_in() -> Vec<SourceFile> {
    listing("data/test/input01", IN1)
}

fn dir_in2() -> Vec<SourceFile> {
    listing("data/test/input02", IN2)
}

fn dir_in3() -> Vec<SourceFile> {
    listing("data/test/input03", IN3)
}

fn dir_bg() -> Vec<SourceFile> {
    listing("data/test/backgrounds01", BG1)
}

fn dir_bg2() -> Vec<SourceFile> {
    listing("data/test/backgrounds02", BG2)
}

fn dir_bg3() -> Vec<SourceFile> {
    listing("data/test/backgrounds03", BG3)
}

fn dir_none() -> Option<Vec<SourceFile>> {
    None
}

fn create_input(
    input: Option<Vec<SourceFile>>,
    backgrounds: Option<Vec<SourceFile>>,
    title: &str,
) -> CollectionInput {
    CollectionInput {
        title: String::from(title),
        name: sanitize(title),
        input_files: input,
        background_files: backgrounds,
    }
}

fn collection_at(gallery: &Gallery, i: usize) -> &Collection {
    let key = gallery.collection_keys[i].clone();
    gallery.get_collection(&key).unwrap()
}

#[test]
fn test_create_collection_one_background() {
    let mut gallery = Gallery::new();

    let input_col1 = create_input(Some(dir_in()), Some(dir_bg()), "Col 1");

    gallery.fill(vec![input_col1], false).unwrap();

    assert_eq!(gallery.collection_keys.len(), 1);
    let col = collection_at(&gallery, 0);
    assert_eq!(col.title, "Col 1");
    assert_eq!(col.pictures.len(), IN1);
    assert_eq!(col.backgrounds.len(), BG1);
}

#[test]
fn test_create_two_collections_one_background() {
    let mut gallery = Gallery::new();

    let input_col1 = create_input(Some(dir_in()), Some(dir_bg()), "Col 1");
    let input_col2 = create_input(Some(dir_in2()), dir_none(), "Col 2");

    gallery.fill(vec![input_col1, input_col2], false).unwrap();

    assert_eq!(gallery.collection_keys.len(), 2);

    let col = collection_at(&gallery, 0);
    assert_eq!(col.title, "Col 1");
    assert_eq!(col.pictures.len(), IN1);
    assert_eq!(col.backgrounds.len(), BG1);

    let col = collection_at(&gallery, 1);
    assert_eq!(col.title, "Col 2");
    assert_eq!(col.pictures.len(), IN2);
    assert_eq!(col.backgrounds.len(), 0);
}

#[test]
fn test_create_three_collections_two_backgrounds() {
    let mut gallery = Gallery::new();

    let input_col1 = create_input(Some(dir_in()), Some(dir_bg()), "Col 1");
    let input_col2 = create_input(Some(dir_in2()), Some(dir_bg2()), "Col 2");
    let input_col3 = create_input(Some(dir_in3()), dir_none(), "Col 3");

    gallery
        .fill(vec![input_col1, input_col2, input_col3], false)
        .unwrap();

    assert_eq!(gallery.collection_keys.len(), 3);

    let col = collection_at(&gallery, 0);
    assert_eq!(col.title, "Col 1");
    assert_eq!(col.pictures.len(), IN1);
    assert_eq!(col.backgrounds.len(), BG1);

    let col = collection_at(&gallery, 1);
    assert_eq!(col.title, "Col 2");
    assert_eq!(col.pictures.len(), IN2);
    assert_eq!(col.backgrounds.len(), BG2);

    let col = collection_at(&gallery, 2);
    assert_eq!(col.title, "Col 3");
    assert_eq!(col.pictures.len(), IN3);
    assert_eq!(col.backgrounds.len(), 0);
}

#[test]
fn test_create_three_collections_three_backgrounds() {
    let mut gallery = Gallery::new();

    let input_col1 = create_input(Some(dir_in()), Some(dir_bg()), "Col 1");
    let input_col2 = create_input(Some(dir_in2()), Some(dir_bg2()), "Col 2");
    let input_col3 = create_input(Some(dir_in3()), Some(dir_bg3()), "Col 3");

    gallery
        .fill(vec![input_col1, input_col2, input_col3], false)
        .unwrap();

    assert_eq!(gallery.collection_keys.len(), 3);

    let col = collection_at(&gallery, 0);
    assert_eq!(col.title, "Col 1");
    assert_eq!(col.pictures.len(), IN1);
    assert_eq!(col.backgrounds.len(), BG1);

    let col = collection_at(&gallery, 1);
    assert_eq!(col.title, "Col 2");
    assert_eq!(col.pictures.len(), IN2);
    assert_eq!(col.backgrounds.len(), BG2);

    let col = collection_at(&gallery, 2);
    assert_eq!(col.title, "Col 3");
    assert_eq!(col.pictures.len(), IN3);
    assert_eq!(col.backgrounds.len(), BG3);
}

#[test]
fn test_create_three_collections_no_backgrounds() {
    let mut gallery = Gallery::new();

    let input_col1 = create_input(Some(dir_in()), dir_none(), "Col 1");
    let input_col2 = create_input(Some(dir_in2()), dir_none(), "Col 2");
    let input_col3 = create_input(Some(dir_in3()), dir_none(), "Col 3");

    gallery
        .fill(vec![input_col1, input_col2, input_col3], false)
        .unwrap();

    assert_eq!(gallery.collection_keys.len(), 3);

    let col = collection_at(&gallery, 0);
    assert_eq!(col.title, "Col 1");
    assert_eq!(col.pictures.len(), IN1);
    assert_eq!(col.backgrounds.len(), 0);

    let col = collection_at(&gallery, 1);
    assert_eq!(col.title, "Col 2");
    assert_eq!(col.pictures.len(), IN2);
    assert_eq!(col.backgrounds.len(), 0);

    let col = collection_at(&gallery, 2);
    assert_eq!(col.title, "Col 3");
    assert_eq!(col.pictures.len(), IN3);
    assert_eq!(col.backgrounds.len(), 0);
}

#[test]
fn test_update_one_collection_one_background() {
    let mut gallery = Gallery::new();

    let input_col1 = create_input(Some(dir_in()), Some(dir_bg()), "Col 1");
    gallery.fill(vec![input_col1], false).unwrap();

    assert_eq!(gallery.collection_keys.len(), 1);

    let input_col2 = create_input(Some(dir_in2()), Some(dir_bg2()), "Col Added");
    gallery.fill(vec![input_col2], false).unwrap();

    assert_eq!(gallery.collection_keys.len(), 2);

    let col = collection_at(&gallery, 0);
    assert_eq!(col.title, "Col 1");
    assert_eq!(col.pictures.len(), IN1);
    assert_eq!(col.backgrounds.len(), BG1);

    let col = collection_at(&gallery, 1);
    assert_eq!(col.title, "Col Added");
    assert_eq!(col.pictures.len(), IN2);
    assert_eq!(col.backgrounds.len(), BG2);
}

#[test]
fn test_update_one_collection_no_background() {
    let mut gallery = Gallery::new();

    let input_col1 = create_input(Some(dir_in()), Some(dir_bg()), "Col 1");
    gallery.fill(vec![input_col1], false).unwrap();

    assert_eq!(gallery.collection_keys.len(), 1);

    let input_col2 = create_input(Some(dir_in2()), dir_none(), "Col Added");
    gallery.fill(vec![input_col2], false).unwrap();

    assert_eq!(gallery.collection_keys.len(), 2);

    let col = collection_at(&gallery, 0);
    assert_eq!(col.title, "Col 1");
    assert_eq!(col.pictures.len(), IN1);
    assert_eq!(col.backgrounds.len(), BG1);

    let col = collection_at(&gallery, 1);
    assert_eq!(col.title, "Col Added");
    assert_eq!(col.pictures.len(), IN2);
    assert_eq!(col.backgrounds.len(), 0);
}

#[test]
fn test_update_existing_collection_no_background() {
    let mut gallery = Gallery::new();

    let input_col1 = create_input(Some(dir_in()), Some(dir_bg()), "Col 1");

    gallery.fill(vec![input_col1], false).unwrap();

    assert_eq!(gallery.collection_keys.len(), 1);

    let col = collection_at(&gallery, 0);
    assert_eq!(col.title, "Col 1");
    assert_eq!(col.pictures.len(), IN1);
    assert_eq!(col.backgrounds.len(), BG1);

    let input_col2 = create_input(Some(dir_in2()), dir_none(), "Col 1");

    gallery.fill(vec![input_col2], false).unwrap();

    assert_eq!(gallery.collection_keys.len(), 1);

    let col = collection_at(&gallery, 0);
    assert_eq!(col.title, "Col 1");
    assert_eq!(col.pictures.len(), IN1 + IN2);
    assert_eq!(col.backgrounds.len(), BG1);
}

#[test]
fn test_update_existing_collection_new_pictures_and_backgrounds() {
    let mut gallery = Gallery::new();

    let input_col1 = create_input(Some(dir_in()), Some(dir_bg()), "Col 1");
    gallery.fill(vec![input_col1], false).unwrap();

    assert_eq!(gallery.collection_keys.len(), 1);

    let col = collection_at(&gallery, 0);
    assert_eq!(col.title, "Col 1");
    assert_eq!(col.pictures.len(), IN1);
    assert_eq!(col.backgrounds.len(), BG1);

    let input_col2 = create_input(Some(dir_in2()), Some(dir_bg2()), "Col 1");

    gallery.fill(vec![input_col2], false).unwrap();

    assert_eq!(gallery.collection_keys.len(), 1);

    let col = collection_at(&gallery, 0);
    assert_eq!(col.title, "Col 1");
    assert_eq!(col.pictures.len(), IN1 + IN2);
    assert_eq!(col.backgrounds.len(), BG1 + BG2);
}

#[test]
fn test_update_existing_collection_new_backgrounds() {
    let mut gallery = Gallery::new();

    let input_col1 = create_input(Some(dir_in()), Some(dir_bg()), "Col 1");

    gallery.fill(vec![input_col1], false).unwrap();

    assert_eq!(gallery.collection_keys.len(), 1);

    let col = collection_at(&gallery, 0);
    assert_eq!(col.title, "Col 1");
    assert_eq!(col.pictures.len(), IN1);
    assert_eq!(col.backgrounds.len(), BG1);

    let input_col2 = create_input(dir_none(), Some(dir_bg2()), "Col 1");

    gallery.fill(vec![input_col2], false).unwrap();

    assert_eq!(gallery.collection_keys.len(), 1);

    let col = collection_at(&gallery, 0);
    assert_eq!(col.title, "Col 1");
    assert_eq!(col.pictures.len(), IN1);
    assert_eq!(col.backgrounds.len(), BG1 + BG2);
}

#[test]
fn test_update_existing_collection_same_pictures_and_backgrounds() {
    let mut gallery = Gallery::new();

    let input_col1 = create_input(Some(dir_in()), Some(dir_bg()), "Col 1");

    gallery.fill(vec![input_col1], false).unwrap();

    assert_eq!(gallery.collection_keys.len(), 1);

    let col = collection_at(&gallery, 0);
    assert_eq!(col.title, "Col 1");
    assert_eq!(col.pictures.len(), IN1);
    assert_eq!(col.backgrounds.len(), BG1);

    let input_col2 = create_input(Some(dir_in()), Some(dir_bg()), "Col 1");

    gallery.fill(vec![input_col2], false).unwrap();

    assert_eq!(gallery.collection_keys.len(), 1);

    let col = collection_at(&gallery, 0);
    assert_eq!(col.title, "Col 1");
    assert_eq!(col.pictures.len(), IN1 * 2);
    assert_eq!(col.backgrounds.len(), BG1 * 2);

    gallery.remove_duplicates();

    // Count images that need an update.
    let mut num_updates = 0;
    let keys: Vec<String> = gallery.collection_keys.clone();
    for key in &keys {
        let c = gallery.get_collection(key).unwrap();
        for p in &c.pictures {
            if p.image.update {
                num_updates += 1;
            }
        }
        for b in &c.backgrounds {
            if b.update {
                num_updates += 1;
            }
        }
    }

    assert_eq!(
        num_updates,
        IN1 + BG1,
        "Updatablae files should only be half of the added files ({}) it is {}",
        IN1 + BG1,
        num_updates
    );
}

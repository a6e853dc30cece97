//! Identities, names, parsing, splicing, serialising and render planning.

use static_gallery::configuration::Configuration;
use static_gallery::gallery::{
    contains_images, pattern_data_end, pattern_data_start, valid_extension, CollectionInput,
    Gallery, JobKind,
};
use static_gallery::mi::bin::Replace;
use static_gallery::mi::fs::{file_stem, hash_quick, sanitize, u64_to_string, SourceFile};
use static_gallery::mi::img::{rotation_from_orientation, Resolution, Rotation};
use static_gallery::mi::json::{Json, JsonData, JsonType};

fn file(path: &str, data: &[u8]) -> SourceFile {
    SourceFile {
        path: String::from(path),
        data: data.to_vec(),
    }
}

fn input(
    pictures: Option<Vec<SourceFile>>,
    backgrounds: Option<Vec<SourceFile>>,
    title: &str,
) -> CollectionInput {
    CollectionInput {
        title: String::from(title),
        name: sanitize(title),
        input_files: pictures,
        background_files: backgrounds,
    }
}

#[test]
fn hash_is_byte_sum() {
    assert_eq!(hash_quick(vec![]), 0);
    assert_eq!(hash_quick(vec![1, 2, 3]), 6);
    assert_eq!(hash_quick(b"ab".to_vec()), 195);
}

#[test]
fn identity_ignores_path_and_name() {
    let a = file("north/trip/one.jpg", b"same bytes");
    let b = file("south/other/two.jpg", b"same bytes");
    assert_eq!(hash_quick(a.data.clone()), hash_quick(b.data.clone()));

    let mut gallery = Gallery::new();
    gallery
        .fill(vec![input(Some(vec![a]), None, "A")], false)
        .unwrap();
    gallery
        .fill(vec![input(Some(vec![b]), None, "B")], false)
        .unwrap();
    let ka = gallery.collection_keys[0].clone();
    let kb = gallery.collection_keys[1].clone();
    let ha = gallery.get_collection(&ka).unwrap().pictures[0].image.hash;
    let hb = gallery.get_collection(&kb).unwrap().pictures[0].image.hash;
    assert_eq!(ha, hb);
}

#[test]
fn dedup_leaves_one_schedulable() {
    // Three collections, each holding one file with identical bytes.
    let mut gallery = Gallery::new();
    let inputs = vec![
        input(Some(vec![file("a/p.jpg", b"twin")]), None, "A"),
        input(Some(vec![file("b/q.jpg", b"twin")]), None, "B"),
        input(Some(vec![file("c/r.jpg", b"twin")]), None, "C"),
    ];
    gallery.fill(inputs, false).unwrap();
    gallery.remove_duplicates();

    let mut schedulable = 0;
    let mut total = 0;
    let keys: Vec<String> = gallery.collection_keys.clone();
    let canonical = gallery.get_collection(&keys[0]).unwrap().pictures[0]
        .image
        .source_path
        .clone();
    for key in &keys {
        let c = gallery.get_collection(key).unwrap();
        for p in &c.pictures {
            total += 1;
            if p.image.update {
                schedulable += 1;
            } else {
                // A collapsed duplicate references the canonical copy.
                assert_eq!(p.image.source_path, canonical);
            }
        }
    }
    assert_eq!(total, 3);
    assert_eq!(schedulable, 1);
}

#[test]
fn background_only_new_collection_fails() {
    let mut gallery = Gallery::new();
    let r = gallery.fill(
        vec![input(None, Some(vec![file("bg/b.jpg", b"bg")]), "Solo")],
        false,
    );
    assert_eq!(
        r.unwrap_err(),
        "Cannot create new collection without input directory: Solo"
    );
    assert_eq!(gallery.collection_keys.len(), 0);
    assert_eq!(gallery.collections.len(), 0);
}

#[test]
fn append_keeps_order() {
    // Filling the same name twice, 3 then 2 pictures, yields 5 with the
    // first 3 preceding the last 2.
    let mut gallery = Gallery::new();
    let first: Vec<SourceFile> = (0..3)
        .map(|k| file(&format!("one/p{}.jpg", k), format!("one{}", k).as_bytes()))
        .collect();
    let second: Vec<SourceFile> = (0..2)
        .map(|k| file(&format!("two/p{}.jpg", k), format!("two{}", k).as_bytes()))
        .collect();
    gallery
        .fill(vec![input(Some(first), None, "Col")], false)
        .unwrap();
    gallery
        .fill(vec![input(Some(second), None, "Col")], false)
        .unwrap();
    let key = gallery.collection_keys[0].clone();
    let col = gallery.get_collection(&key).unwrap();
    assert_eq!(col.pictures.len(), 5);
    for i in 0..3 {
        assert!(col.pictures[i].image.source_path.starts_with("one/"));
    }
    for i in 3..5 {
        assert!(col.pictures[i].image.source_path.starts_with("two/"));
    }
}

#[test]
fn trip_scenario_filters_and_clears_titles() {
    // Directory A: 3 jpg and 1 png; directory B: 2 jpg.
    let a = vec![
        file("A/one.jpg", b"a1"),
        file("A/two.jpg", b"a2"),
        file("A/three.jpg", b"a3"),
        file("A/skip.png", b"a4"),
    ];
    let b = vec![file("B/x.jpg", b"b1"), file("B/y.jpg", b"b2")];
    let mut gallery = Gallery::new();
    gallery
        .fill(vec![input(Some(a), Some(b), "Trip")], false)
        .unwrap();

    assert_eq!(gallery.collection_keys[0], "trip");
    let key = gallery.collection_keys[0].clone();
    let col = gallery.get_collection(&key).unwrap();
    assert_eq!(col.title, "Trip");
    assert_eq!(col.pictures.len(), 3);
    assert_eq!(col.backgrounds.len(), 2);
    for p in &col.pictures {
        assert_eq!(p.title, "");
    }
}

#[test]
fn filename_titles_kept_on_request() {
    let a = vec![file("A/holiday snap.jpg", b"t1")];
    let mut gallery = Gallery::new();
    gallery
        .fill(vec![input(Some(a), None, "T")], true)
        .unwrap();
    let key = gallery.collection_keys[0].clone();
    let col = gallery.get_collection(&key).unwrap();
    assert_eq!(col.pictures[0].title, "holiday snap");
}

#[test]
fn render_jobs_cover_every_owed_artifact() {
    let mut gallery = Gallery::new();
    let c = input(
        Some(vec![file("p/a.jpg", b"ab")]),
        Some(vec![file("p/b.jpg", b"xy")]),
        "C",
    );
    gallery.fill(vec![c], false).unwrap();

    let jobs = gallery.render_jobs(&vec![]);
    assert_eq!(jobs.len(), 4);
    assert_eq!(jobs[0].kind, JobKind::Thumb);
    assert_eq!(jobs[0].target, "195.thumb.jpg");
    assert_eq!(jobs[1].kind, JobKind::Display);
    assert_eq!(jobs[1].target, "195.disp.jpg");
    assert_eq!(jobs[2].kind, JobKind::Full);
    assert_eq!(jobs[2].target, "195.jpg");
    assert_eq!(jobs[3].kind, JobKind::Background);
    assert_eq!(jobs[3].target, "241.bg.jpg");
    assert_eq!(jobs[0].collection_name, "c");
    assert_eq!(jobs[0].source_path, "p/a.jpg");
}

#[test]
fn rerender_plans_nothing_when_targets_exist() {
    let mut gallery = Gallery::new();
    let c = input(
        Some(vec![file("p/a.jpg", b"ab")]),
        Some(vec![file("p/b.jpg", b"xy")]),
        "C",
    );
    gallery.fill(vec![c], false).unwrap();

    let first = gallery.render_jobs(&vec![]);
    let existing: Vec<String> = first.iter().map(|j| j.target.clone()).collect();
    let second = gallery.render_jobs(&existing);
    assert_eq!(second.len(), 0);

    let partial = vec![String::from("195.thumb.jpg")];
    let third = gallery.render_jobs(&partial);
    assert_eq!(third.len(), 3);
}

#[test]
fn failed_image_is_dropped_others_stay() {
    let mut gallery = Gallery::new();
    let c = input(
        Some(vec![
            file("p/good.jpg", b"good"),
            file("p/bad.jpg", b"bad"),
            file("p/fine.jpg", b"fine"),
        ]),
        None,
        "C",
    );
    gallery.fill(vec![c], false).unwrap();
    let bad_hash = hash_quick(b"bad".to_vec());

    gallery.remove_failures(&vec![(String::from("c"), bad_hash)]);

    let key = gallery.collection_keys[0].clone();
    let col = gallery.get_collection(&key).unwrap();
    assert_eq!(col.pictures.len(), 2);
    assert_eq!(col.pictures[0].image.source_path, "p/good.jpg");
    assert_eq!(col.pictures[1].image.source_path, "p/fine.jpg");

    // The run still produces a manifest.
    let manifest = gallery.json();
    assert!(manifest.contains("\"collections\""));
    assert!(!manifest.contains(&bad_hash.to_string()));
}

#[test]
fn manifest_has_exact_shape() {
    let mut gallery = Gallery::new();
    gallery
        .fill(
            vec![input(Some(vec![file("d/a.jpg", b"ab")]), None, "C")],
            false,
        )
        .unwrap();
    let mut expected = String::new();
    expected.push_str("{\"version\":1,\"extension\":\"jpg\",\"archives\":{},");
    expected.push_str("\"collection_keys\":[\"c\"],");
    expected.push_str("\"collections\":{\"c\":{\"title\":\"C\",\"name\":\"c\",");
    expected.push_str("\"pictures\":[{\"title\":\"\",\"path\":195}],\"backgrounds\":[]}},");
    expected.push_str("\"res_background\":{\"width\":2560,\"height\":1440},");
    expected.push_str("\"res_display\":{\"width\":2560,\"height\":1440},");
    expected.push_str("\"res_thumb\":{\"width\":960,\"height\":540}}");
    assert_eq!(gallery.json(), expected);
}

#[test]
fn gallery_from_configuration_rotates_backgrounds() {
    let config = Configuration {
        input_dirs: vec![
            vec![file("i1/a.jpg", b"c1")],
            vec![file("i2/b.jpg", b"c2")],
        ],
        background_dirs: vec![vec![file("bg/x.jpg", b"bg1")]],
        collection_titles: vec![String::from("First"), String::from("Second")],
        output_dir: String::from("out"),
        template_dir: String::from("tpl"),
        clean_output: false,
        create_full_archive: false,
        tumb_size: Resolution {
            width: 960,
            height: 540,
        },
        display_size: Resolution {
            width: 2560,
            height: 1440,
        },
        background_size: Resolution {
            width: 2560,
            height: 1440,
        },
        resize_method: String::from("lanczos3"),
        jpeg_quality: 75,
        threads: 1,
        verbose: 1,
        image_name_titles: false,
    };
    let gallery = Gallery::from(&config).unwrap();
    assert_eq!(gallery.collection_keys, vec!["first", "second"]);
    for key in &["first", "second"] {
        let col = gallery.get_collection(&String::from(*key)).unwrap();
        assert_eq!(col.pictures.len(), 1);
        // The single background listing is reused for every collection.
        assert_eq!(col.backgrounds.len(), 1);
        assert_eq!(col.backgrounds[0].source_path, "bg/x.jpg");
    }
}

#[test]
fn archive_registration_overwrites_by_name() {
    let mut gallery = Gallery::new();
    gallery.register_archive(String::from("_full_"), String::from("Gallery.zip"));
    assert_eq!(gallery.archives.len(), 1);
    assert!(gallery
        .json()
        .contains("\"archives\":{\"_full_\":\"Gallery.zip\"}"));

    gallery.register_archive(String::from("_full_"), String::from("Other.zip"));
    assert_eq!(gallery.archives.len(), 1);
    assert_eq!(gallery.archives[0].1, "Other.zip");
}

#[test]
fn empty_fill_changes_nothing() {
    let mut gallery = Gallery::new();
    gallery.fill(vec![], false).unwrap();
    assert_eq!(gallery.collection_keys.len(), 0);
    assert_eq!(gallery.collections.len(), 0);
}

#[test]
fn empty_gallery_manifest_is_exact() {
    let gallery = Gallery::new();
    let mut expected = String::new();
    expected.push_str("{\"version\":1,\"extension\":\"jpg\",\"archives\":{},");
    expected.push_str("\"collection_keys\":[],\"collections\":{},");
    expected.push_str("\"res_background\":{\"width\":2560,\"height\":1440},");
    expected.push_str("\"res_display\":{\"width\":2560,\"height\":1440},");
    expected.push_str("\"res_thumb\":{\"width\":960,\"height\":540}}");
    assert_eq!(gallery.json(), expected);
}

#[test]
fn dedup_without_duplicates_changes_nothing() {
    let mut gallery = Gallery::new();
    gallery
        .fill(
            vec![input(
                Some(vec![file("d/a.jpg", b"one"), file("d/b.jpg", b"two")]),
                None,
                "C",
            )],
            false,
        )
        .unwrap();
    gallery.remove_duplicates();
    let key = gallery.collection_keys[0].clone();
    let col = gallery.get_collection(&key).unwrap();
    assert_eq!(col.pictures.len(), 2);
    assert!(col.pictures[0].image.update);
    assert!(col.pictures[1].image.update);
    assert_eq!(col.pictures[0].image.source_path, "d/a.jpg");
}

#[test]
fn markers_in_wrong_order_leave_document() {
    let start = pattern_data_start();
    let end = pattern_data_end();
    let mut doc: Vec<u8> = Vec::new();
    doc.extend_from_slice(&end);
    doc.extend_from_slice(b"body");
    doc.extend_from_slice(&start);
    // The closing marker never follows the opening one, so nothing is
    // found and the document stays as it is.
    assert_eq!(doc.replace_between(&start, &end, b"x"), doc);
    assert_eq!(doc.between(&start, &end), doc);
}

#[test]
fn sanitize_normalises_titles() {
    assert_eq!(sanitize("Col 1"), "col_1");
    assert_eq!(sanitize("  Trip  "), "trip");
    assert_eq!(sanitize("My.Pics_2021!"), "my-pics-2021-");
    assert_eq!(sanitize("A\tB"), "a_b");
    assert_eq!(sanitize(""), "");
}

#[test]
fn extension_check_is_case_insensitive() {
    assert!(valid_extension("a/b/photo.jpg"));
    assert!(valid_extension("a/b/photo.JPEG"));
    assert!(valid_extension("photo.JpG"));
    assert!(!valid_extension("photo.png"));
    assert!(!valid_extension("photo"));
    assert!(!valid_extension(".jpg"));
    assert!(!valid_extension("archive.jpg.zip"));
}

#[test]
fn listing_with_any_supported_file_contains_images() {
    assert!(contains_images(&vec![
        file("d/readme.txt", b"t"),
        file("d/ok.jpeg", b"i"),
    ]));
    assert!(!contains_images(&vec![file("d/readme.txt", b"t")]));
    assert!(!contains_images(&vec![]));
}

#[test]
fn file_stem_drops_directory_and_extension() {
    assert_eq!(file_stem("dir/photo.JPG"), "photo");
    assert_eq!(file_stem("photo.jpg"), "photo");
    assert_eq!(file_stem("dir/archive.tar.gz"), "archive.tar");
    assert_eq!(file_stem("dir/noext"), "noext");
}

#[test]
fn numbers_print_in_decimal() {
    assert_eq!(u64_to_string(0), "0");
    assert_eq!(u64_to_string(12345), "12345");
    assert_eq!(u64_to_string(u64::MAX), "18446744073709551615");
}

#[test]
fn resolution_parses_and_reports_each_error() {
    assert_eq!(
        Resolution::new("960x540").unwrap(),
        Resolution {
            width: 960,
            height: 540
        }
    );
    assert_eq!(
        Resolution::new(" 2560 x 1440 ").unwrap(),
        Resolution {
            width: 2560,
            height: 1440
        }
    );
    assert_eq!(
        Resolution::new("abc").unwrap_err(),
        "Invalid Resolution, must be in format WxH"
    );
    assert_eq!(
        Resolution::new("1x2x3").unwrap_err(),
        "Invalid Resolution, must be in format WxH"
    );
    assert_eq!(Resolution::new("960x").unwrap_err(), "Invalid Resolution");
    assert_eq!(
        Resolution::new("960x54a0").unwrap_err(),
        "Invalid Resolution"
    );
    assert_eq!(
        Resolution::new("99999999999x540").unwrap_err(),
        "Invalid Resolution"
    );
    assert_eq!(Resolution::new("100x100").unwrap_err(), "Resolution to low");
    assert_eq!(
        Resolution::new("+960x540").unwrap(),
        Resolution {
            width: 960,
            height: 540
        }
    );
}

#[test]
fn exif_orientation_maps_to_rotation() {
    assert_eq!(rotation_from_orientation(1), Rotation::R0);
    assert_eq!(rotation_from_orientation(3), Rotation::R180);
    assert_eq!(rotation_from_orientation(6), Rotation::R90);
    assert_eq!(rotation_from_orientation(8), Rotation::R270);
    assert_eq!(rotation_from_orientation(2), Rotation::R0);
    assert_eq!(rotation_from_orientation(99), Rotation::R0);
}

#[test]
fn splice_replaces_between_markers() {
    let start = pattern_data_start();
    let end = pattern_data_end();
    let mut doc: Vec<u8> = Vec::new();
    doc.extend_from_slice(b"<html>");
    doc.extend_from_slice(&start);
    doc.extend_from_slice(b"{}");
    doc.extend_from_slice(&end);
    doc.extend_from_slice(b"</html>");

    let inner = doc.between(&start, &end);
    assert_eq!(inner, b"{}".to_vec());

    let spliced = doc.replace_between(&start, &end, b"[1]");
    let mut expected: Vec<u8> = Vec::new();
    expected.extend_from_slice(b"<html>");
    expected.extend_from_slice(&start);
    expected.extend_from_slice(b"[1]");
    expected.extend_from_slice(&end);
    expected.extend_from_slice(b"</html>");
    assert_eq!(spliced, expected);

    // A document without the markers comes back unchanged.
    let plain = b"no markers here".to_vec();
    assert_eq!(plain.replace_between(&start, &end, b"x"), plain);
    assert_eq!(plain.between(&start, &end), plain);
}

#[test]
fn index_of_finds_first_occurrence() {
    let hay = b"abcabc".to_vec();
    assert_eq!(hay.index_of(b"bc", 0), Ok(1));
    assert_eq!(hay.index_of(b"bc", 2), Ok(4));
    assert_eq!(hay.index_of(b"zz", 0), Err(0));
    assert_eq!(hay.index_of(b"bcd", 0), Err(0));
}

#[test]
fn replace_rewrites_every_occurrence() {
    let hay = b"aXbXc".to_vec();
    assert_eq!(hay.replace(b"X", b"--"), b"a--b--c".to_vec());
    assert_eq!(b"aaa".to_vec().replace(b"aa", b"b"), b"ba".to_vec());
    assert_eq!(b"abc".to_vec().replace(b"", b"x"), b"abc".to_vec());
}

#[test]
fn json_writer_serialises_in_insertion_order() {
    let mut j = Json::new(JsonType::Object);
    j.start_property("a", JsonType::String);
    j.value("x");
    j.end();
    j.start_property("n", JsonType::Number);
    j.value("42");
    j.end();
    j.start_property("arr", JsonType::Array);
    j.string("q\"uote");
    j.end();
    assert_eq!(j.stringify(), "{\"a\":\"x\",\"n\":42,\"arr\":[\"q\\\"uote\"]}");
}

#[test]
fn json_writer_accepts_booleans_and_numbers() {
    let mut j = Json::new(JsonType::Object);
    j.start_property("flag", JsonType::Bool);
    j.value("true");
    j.end();
    j.start_property("frac", JsonType::Number);
    j.value("-12.5");
    j.end();
    j.start_property("sci", JsonType::Number);
    j.value("1.5e-3");
    j.end();
    assert_eq!(
        j.stringify(),
        "{\"flag\":true,\"frac\":-12.5,\"sci\":1.5e-3}"
    );
}

#[test]
fn json_values_serialise_exactly() {
    assert_eq!(JsonData::new(JsonType::Null).stringify(), "null");
    assert_eq!(JsonData::new(JsonType::Object).stringify(), "{}");
    assert_eq!(JsonData::new(JsonType::Array).stringify(), "[]");
    assert_eq!(JsonData::new(JsonType::Incomplete).stringify(), "");

    let mut j = Json::new(JsonType::Array);
    j.null();
    j.end();
    j.string("b");
    assert_eq!(j.stringify(), "[null,\"b\"]");
}

#[test]
fn get_picture_finds_by_identity() {
    let mut gallery = Gallery::new();
    gallery
        .fill(
            vec![input(
                Some(vec![file("d/a.jpg", b"ab"), file("d/b.jpg", b"cd")]),
                None,
                "C",
            )],
            false,
        )
        .unwrap();
    let key = gallery.collection_keys[0].clone();
    let col = gallery.get_collection(&key).unwrap();
    let p = col.get_picture(195).unwrap();
    assert_eq!(p.image.source_path, "d/a.jpg");
    assert!(col.get_picture(7777).is_none());
}

#[test]
fn remove_resource_keeps_remaining_order() {
    let pictures = vec![
        file("d/a.jpg", b"1"),
        file("d/b.jpg", b"2"),
        file("d/c.jpg", b"3"),
    ];
    let backgrounds = vec![file("d/bg.jpg", b"2")];
    let mut col = static_gallery::gallery::Collection::new(
        sanitize("C"),
        String::from("C"),
        pictures,
        backgrounds,
        false,
    );
    assert_eq!(col.pictures.len(), 3);
    assert_eq!(col.backgrounds.len(), 1);

    col.remove_resource(hash_quick(b"2".to_vec()));

    assert_eq!(col.pictures.len(), 2);
    assert_eq!(col.pictures[0].image.source_path, "d/a.jpg");
    assert_eq!(col.pictures[1].image.source_path, "d/c.jpg");
    assert_eq!(col.backgrounds.len(), 0);
}

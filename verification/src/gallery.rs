//! The gallery data model: supported files, collection entries, constants.
//!
//! A gallery is built from non-recursive directory listings.  Only `.jpg`
//! and `.jpeg` files (case-insensitive) are taken in; everything else in a
//! listing is dropped without error.

use vstd::prelude::*;
use crate::mi::fs::{
    SourceFile, FileV, basename_of, ext_of, lower_seq, lower_char, scan_basename, to_lower,
    file_stem, hash_quick,
};
use crate::gallery::picture::{
    ImageV, PictureV, images_of, pictures_of, filtered_images, filtered_pictures, cleared_titles,
    image_of_file, picture_of_file,
};

pub mod collection;
pub mod gallery;
pub mod picture;
pub mod render;

pub use self::collection::Collection;
pub use self::collection::CollectionInput;
pub use self::gallery::Gallery;
pub use self::picture::Image;
pub use self::picture::Picture;
pub use self::render::JobKind;
pub use self::render::RenderJob;

verus! {

/// Version tag written into every manifest.
pub const GALLERY_CONFIGURATION_VERSION: u16 = 1;

/// The extension of every produced rendition.
pub fn picture_extension() -> (r: String)
    ensures
        r@ == "jpg"@,
{
    String::from_str("jpg")
}

/// The relative path of the archive of originals.
pub fn full_archive_path() -> (r: String)
    ensures
        r@ == "Gallery.zip"@,
{
    String::from_str("Gallery.zip")
}

/// The directory, inside the output tree, that holds the renditions.
pub fn pictures_dir_name() -> (r: String)
    ensures
        r@ == "p"@,
{
    String::from_str("p")
}

/// The byte marker that opens the manifest block in the output page.
pub open spec fn data_start_marker() -> Seq<u8> {
    seq![47u8, 42u8, 123u8, 123u8, 66u8, 69u8, 71u8, 73u8, 78u8, 58u8, 100u8, 97u8, 116u8, 97u8, 42u8, 47u8]
}

/// The byte marker that closes the manifest block in the output page.
pub open spec fn data_end_marker() -> Seq<u8> {
    seq![47u8, 42u8, 69u8, 78u8, 68u8, 58u8, 100u8, 97u8, 116u8, 97u8, 125u8, 125u8, 42u8, 47u8]
}

/// The opening marker, as bytes.
pub fn pattern_data_start() -> (v: Vec<u8>)
    ensures
        v@ == data_start_marker(),
{
    let mut v: Vec<u8> = Vec::new();
    v.push(47);
    v.push(42);
    v.push(123);
    v.push(123);
    v.push(66);
    v.push(69);
    v.push(71);
    v.push(73);
    v.push(78);
    v.push(58);
    v.push(100);
    v.push(97);
    v.push(116);
    v.push(97);
    v.push(42);
    v.push(47);
    proof {
        assert(v@ =~= data_start_marker());
    }
    v
}

/// The closing marker, as bytes.
pub fn pattern_data_end() -> (v: Vec<u8>)
    ensures
        v@ == data_end_marker(),
{
    let mut v: Vec<u8> = Vec::new();
    v.push(47);
    v.push(42);
    v.push(69);
    v.push(78);
    v.push(68);
    v.push(58);
    v.push(100);
    v.push(97);
    v.push(116);
    v.push(97);
    v.push(125);
    v.push(125);
    v.push(42);
    v.push(47);
    proof {
        assert(v@ =~= data_end_marker());
    }
    v
}

/// A path whose extension, lower-cased, is `jpg` or `jpeg`.
pub open spec fn is_valid_extension(p: Seq<char>) -> bool {
    match ext_of(p) {
        Some(e) => lower_seq(e) == "jpg"@ || lower_seq(e) == "jpeg"@,
        None => false,
    }
}

/// Whether a path names a supported image file (`.jpg` or `.jpeg`, any
/// case).
pub fn valid_extension(path: &str) -> (r: bool)
    ensures
        r == is_valid_extension(path@),
{
    let len = path.unicode_len();
    let (k, d) = scan_basename(path);
    proof {
        reveal_strlit("jpg");
        reveal_strlit("jpeg");
    }
    if d - k > 1 {
        let ghost b = basename_of(path@);
        let ghost e = b.skip(d - k);
        proof {
            assert(ext_of(path@) == Some(e));
            assert(e =~= path@.subrange(d as int, len as int));
            assert(forall|t: int|
                0 <= t < e.len() ==> lower_seq(e)[t] == lower_char(#[trigger] e[t]));
        }
        let el = len - d;
        if el == 3 {
            let c0 = to_lower(path.get_char(d));
            let c1 = to_lower(path.get_char(d + 1));
            let c2 = to_lower(path.get_char(d + 2));
            let r = c0 == 'j' && c1 == 'p' && c2 == 'g';
            proof {
                assert(e[0] == path@[d as int] && e[1] == path@[d + 1] && e[2] == path@[d + 2]);
                assert(lower_seq(e)[0] == c0 && lower_seq(e)[1] == c1 && lower_seq(e)[2] == c2);
                if r {
                    assert(lower_seq(e) =~= "jpg"@);
                } else {
                    assert(lower_seq(e) != "jpg"@);
                    assert(lower_seq(e).len() != "jpeg"@.len());
                }
            }
            r
        } else if el == 4 {
            let c0 = to_lower(path.get_char(d));
            let c1 = to_lower(path.get_char(d + 1));
            let c2 = to_lower(path.get_char(d + 2));
            let c3 = to_lower(path.get_char(d + 3));
            let r = c0 == 'j' && c1 == 'p' && c2 == 'e' && c3 == 'g';
            proof {
                assert(e[0] == path@[d as int] && e[1] == path@[d + 1] && e[2] == path@[d + 2]
                    && e[3] == path@[d + 3]);
                assert(lower_seq(e)[0] == c0 && lower_seq(e)[1] == c1 && lower_seq(e)[2] == c2
                    && lower_seq(e)[3] == c3);
                if r {
                    assert(lower_seq(e) =~= "jpeg"@);
                } else {
                    assert(lower_seq(e) != "jpeg"@);
                    assert(lower_seq(e).len() != "jpg"@.len());
                }
            }
            r
        } else {
            proof {
                assert(lower_seq(e).len() == e.len());
                assert(lower_seq(e) != "jpg"@ && lower_seq(e) != "jpeg"@);
            }
            false
        }
    } else {
        false
    }
}

/// Whether a directory listing holds at least one supported image file.
pub fn contains_images(files: &Vec<SourceFile>) -> (r: bool)
    ensures
        r == exists|i: int|
            0 <= i < files@.len() && is_valid_extension(files@[i].path@),
{
    let mut i: usize = 0;
    while i < files.len()
        invariant
            i <= files@.len(),
            forall|j: int| 0 <= j < i ==> !is_valid_extension(files@[j].path@),
        decreases files@.len() - i,
    {
        if valid_extension(files[i].path.as_str()) {
            return true;
        }
        i = i + 1;
    }
    false
}

/// Copies a byte vector.
fn clone_bytes(v: &Vec<u8>) -> (r: Vec<u8>)
    ensures
        r@ == v@,
{
    let mut r: Vec<u8> = Vec::new();
    let mut i: usize = 0;
    while i < v.len()
        invariant
            i <= v@.len(),
            r@ == v@.take(i as int),
        decreases v@.len() - i,
    {
        r.push(v[i]);
        proof {
            assert(v@.take(i + 1) =~= v@.take(i as int).push(v@[i as int]));
        }
        i = i + 1;
    }
    proof {
        assert(v@.take(v@.len() as int) =~= v@);
    }
    r
}

/// Builds one image entry per listed file: identity from the bytes, path
/// kept, rendering owed.
pub fn images_from_files(files: &Vec<SourceFile>) -> (r: Vec<Image>)
    ensures
        r.deep_view() == images_of(files.deep_view()),
{
    let mut new: Vec<Image> = Vec::new();
    let mut i: usize = 0;
    while i < files.len()
        invariant
            i <= files@.len(),
            new.deep_view() == images_of(files.deep_view().take(i as int)),
        decreases files@.len() - i,
    {
        let hash = hash_quick(clone_bytes(&files[i].data));
        let source_path = files[i].path.clone();
        new.push(Image { hash, update: true, source_path });
        proof {
            let fv = files.deep_view();
            assert(fv.take(i + 1) =~= fv.take(i as int).push(fv[i as int]));
            assert(images_of(fv.take(i + 1)) =~= images_of(fv.take(i as int)).push(
                image_of_file(fv[i as int]),
            ));
        }
        i = i + 1;
    }
    proof {
        assert(files.deep_view().take(files.deep_view().len() as int) =~= files.deep_view());
    }
    new
}

/// Builds one picture entry per listed file, titled with the file stem.
pub fn pictures_from_files(files: &Vec<SourceFile>) -> (r: Vec<Picture>)
    ensures
        r.deep_view() == pictures_of(files.deep_view()),
{
    let mut new: Vec<Picture> = Vec::new();
    let mut i: usize = 0;
    while i < files.len()
        invariant
            i <= files@.len(),
            new.deep_view() == pictures_of(files.deep_view().take(i as int)),
        decreases files@.len() - i,
    {
        let hash = hash_quick(clone_bytes(&files[i].data));
        let source_path = files[i].path.clone();
        let title = file_stem(files[i].path.as_str());
        new.push(Picture { title, image: Image { hash, update: true, source_path } });
        proof {
            let fv = files.deep_view();
            assert(fv.take(i + 1) =~= fv.take(i as int).push(fv[i as int]));
            assert(pictures_of(fv.take(i + 1)) =~= pictures_of(fv.take(i as int)).push(
                picture_of_file(fv[i as int]),
            ));
        }
        i = i + 1;
    }
    proof {
        assert(files.deep_view().take(files.deep_view().len() as int) =~= files.deep_view());
    }
    new
}

/// Drops every image whose source is not a supported file, keeping order.
pub fn filter_valid_images(images: &mut Vec<Image>)
    ensures
        final(images).deep_view() == filtered_images(old(images).deep_view()),
{
    let ghost orig = old(images).deep_view();
    let mut i: usize = 0;
    let ghost mut j: int = 0;
    while i < images.len()
        invariant
            0 <= j <= orig.len(),
            i == filtered_images(orig.take(j)).len(),
            i <= images@.len(),
            images.deep_view() =~= filtered_images(orig.take(j)) + orig.skip(j),
        decreases orig.len() - j,
    {
        proof {
            assert(images.deep_view()[i as int] == orig[j]);
            assert(orig.take(j + 1).drop_last() =~= orig.take(j));
        }
        if valid_extension(images[i].source_path.as_str()) {
            proof {
                assert(filtered_images(orig.take(j + 1)) =~= filtered_images(orig.take(j)).push(
                    orig[j],
                ));
                assert(orig.skip(j + 1) =~= orig.skip(j).drop_first());
                assert(images.deep_view() =~= filtered_images(orig.take(j + 1)) + orig.skip(
                    j + 1,
                ));
            }
            i = i + 1;
        } else {
            let ghost prev = images.deep_view();
            images.remove(i);
            proof {
                assert(images.deep_view() =~= prev.remove(i as int));
                assert(filtered_images(orig.take(j + 1)) =~= filtered_images(orig.take(j)));
                assert(orig.skip(j + 1) =~= orig.skip(j).drop_first());
                assert(images.deep_view() =~= filtered_images(orig.take(j + 1)) + orig.skip(
                    j + 1,
                ));
            }
        }
        proof {
            j = j + 1;
        }
    }
    proof {
        assert(j == orig.len());
        assert(orig.take(orig.len() as int) =~= orig);
        assert(orig.skip(orig.len() as int) =~= Seq::<ImageV>::empty());
        assert(images.deep_view() =~= filtered_images(orig));
    }
}

/// Drops every picture whose source is not a supported file, keeping order.
pub fn filter_valid_pictures(pictures: &mut Vec<Picture>)
    ensures
        final(pictures).deep_view() == filtered_pictures(old(pictures).deep_view()),
{
    let ghost orig = old(pictures).deep_view();
    let mut i: usize = 0;
    let ghost mut j: int = 0;
    while i < pictures.len()
        invariant
            0 <= j <= orig.len(),
            i == filtered_pictures(orig.take(j)).len(),
            i <= pictures@.len(),
            pictures.deep_view() =~= filtered_pictures(orig.take(j)) + orig.skip(j),
        decreases orig.len() - j,
    {
        proof {
            assert(pictures.deep_view()[i as int] == orig[j]);
            assert(orig.take(j + 1).drop_last() =~= orig.take(j));
        }
        if valid_extension(pictures[i].image.source_path.as_str()) {
            proof {
                assert(filtered_pictures(orig.take(j + 1)) =~= filtered_pictures(
                    orig.take(j),
                ).push(orig[j]));
                assert(orig.skip(j + 1) =~= orig.skip(j).drop_first());
                assert(pictures.deep_view() =~= filtered_pictures(orig.take(j + 1)) + orig.skip(
                    j + 1,
                ));
            }
            i = i + 1;
        } else {
            let ghost prev = pictures.deep_view();
            pictures.remove(i);
            proof {
                assert(pictures.deep_view() =~= prev.remove(i as int));
                assert(filtered_pictures(orig.take(j + 1)) =~= filtered_pictures(orig.take(j)));
                assert(orig.skip(j + 1) =~= orig.skip(j).drop_first());
                assert(pictures.deep_view() =~= filtered_pictures(orig.take(j + 1)) + orig.skip(
                    j + 1,
                ));
            }
        }
        proof {
            j = j + 1;
        }
    }
    proof {
        assert(j == orig.len());
        assert(orig.take(orig.len() as int) =~= orig);
        assert(orig.skip(orig.len() as int) =~= Seq::<PictureV>::empty());
        assert(pictures.deep_view() =~= filtered_pictures(orig));
    }
}

/// Clears every picture title.
pub fn clear_picture_titles(pictures: &mut Vec<Picture>)
    ensures
        final(pictures).deep_view() == cleared_titles(old(pictures).deep_view()),
{
    let ghost orig = old(pictures).deep_view();
    let mut new: Vec<Picture> = Vec::new();
    let mut i: usize = 0;
    while i < pictures.len()
        invariant
            i <= pictures@.len(),
            pictures.deep_view() == orig,
            new.deep_view() =~= cleared_titles(orig.take(i as int)),
        decreases pictures@.len() - i,
    {
        proof {
            assert(pictures.deep_view()[i as int] == orig[i as int]);
        }
        let image = Image {
            hash: pictures[i].image.hash,
            update: pictures[i].image.update,
            source_path: pictures[i].image.source_path.clone(),
        };
        new.push(Picture { title: String::new(), image });
        proof {
            assert(orig.take(i + 1) =~= orig.take(i as int).push(orig[i as int]));
            assert(cleared_titles(orig.take(i + 1)) =~= cleared_titles(orig.take(i as int)).push(
                PictureV { title: Seq::empty(), image: orig[i as int].image },
            ));
            assert(new.deep_view() =~= cleared_titles(orig.take(i + 1)));
        }
        i = i + 1;
    }
    proof {
        assert(orig.take(orig.len() as int) =~= orig);
    }
    *pictures = new;
}

/// Construction shared by picture and background lists.  The three spec
/// functions say what each implementor's entries are, so the methods carry
/// the same contracts as the free functions they stand for.
pub trait GalleryImages: Sized + DeepView {
    /// The entries a directory listing builds, one per file, in order.
    spec fn built_entries(files: Seq<FileV>) -> Self::V;

    /// The entries kept by the extension filter, order preserved.
    spec fn valid_entries(entries: Self::V) -> Self::V;

    /// The entries with their display titles cleared, where they carry any.
    spec fn untitled_entries(entries: Self::V) -> Self::V;

    /// Builds entries from a directory listing.
    fn from(files: &Vec<SourceFile>) -> (r: Self)
        ensures
            r.deep_view() == Self::built_entries(files.deep_view()),
    ;

    /// Drops entries whose source is not a supported image file.
    fn filter_valid(&mut self)
        ensures
            final(self).deep_view() == Self::valid_entries(old(self).deep_view()),
    ;

    /// Clears display titles, where the entries carry any.
    fn clear_titles(&mut self)
        ensures
            final(self).deep_view() == Self::untitled_entries(old(self).deep_view()),
    ;
}

impl GalleryImages for Vec<Picture> {
    open spec fn built_entries(files: Seq<FileV>) -> Seq<PictureV> {
        pictures_of(files)
    }

    open spec fn valid_entries(entries: Seq<PictureV>) -> Seq<PictureV> {
        filtered_pictures(entries)
    }

    open spec fn untitled_entries(entries: Seq<PictureV>) -> Seq<PictureV> {
        cleared_titles(entries)
    }

    fn from(files: &Vec<SourceFile>) -> Vec<Picture> {
        pictures_from_files(files)
    }

    fn filter_valid(&mut self) {
        filter_valid_pictures(self)
    }

    fn clear_titles(&mut self) {
        clear_picture_titles(self)
    }
}

impl GalleryImages for Vec<Image> {
    open spec fn built_entries(files: Seq<FileV>) -> Seq<ImageV> {
        images_of(files)
    }

    open spec fn valid_entries(entries: Seq<ImageV>) -> Seq<ImageV> {
        filtered_images(entries)
    }

    open spec fn untitled_entries(entries: Seq<ImageV>) -> Seq<ImageV> {
        entries
    }

    fn from(files: &Vec<SourceFile>) -> Vec<Image> {
        images_from_files(files)
    }

    fn filter_valid(&mut self) {
        filter_valid_images(self)
    }

    fn clear_titles(&mut self) {
        // Background images carry no titles.
    }
}

} // verus!

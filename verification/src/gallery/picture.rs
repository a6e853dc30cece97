//! Images and pictures: the per-file entries of a collection.
//!
//! An [`Image`] carries the content identity of one source file, the path it
//! was found at, and the `update` flag that says whether its renditions
//! still have to be produced.  A [`Picture`] is an image with an optional
//! display title.

use vstd::prelude::*;
use crate::mi::fs::{FileV, hash_of, stem_of};

verus! {

/// A source image: content identity, origin, and whether it still needs
/// rendering.
#[derive(Debug)]
pub struct Image {
    /// Content fingerprint of the source bytes; also the artifact file stem.
    pub hash: u64,
    /// True while at least one artifact of this image may still be missing.
    pub update: bool,
    /// Where the source file was found.
    pub source_path: String,
}

/// An image shown in a collection, with its display title.
#[derive(Debug)]
pub struct Picture {
    pub title: String,
    pub image: Image,
}

/// The mathematical value of an [`Image`].
#[verifier::ext_equal]
pub ghost struct ImageV {
    pub hash: u64,
    pub update: bool,
    pub source_path: Seq<char>,
}

/// The mathematical value of a [`Picture`].
#[verifier::ext_equal]
pub ghost struct PictureV {
    pub title: Seq<char>,
    pub image: ImageV,
}

impl View for Image {
    type V = ImageV;

    open spec fn view(&self) -> ImageV {
        ImageV { hash: self.hash, update: self.update, source_path: self.source_path@ }
    }
}

impl DeepView for Image {
    type V = ImageV;

    open spec fn deep_view(&self) -> ImageV {
        self.view()
    }
}

impl View for Picture {
    type V = PictureV;

    open spec fn view(&self) -> PictureV {
        PictureV { title: self.title@, image: self.image@ }
    }
}

impl DeepView for Picture {
    type V = PictureV;

    open spec fn deep_view(&self) -> PictureV {
        self.view()
    }
}

/// The image entry a listed file turns into: identity from the bytes, the
/// path kept, rendering still owed.
pub open spec fn image_of_file(f: FileV) -> ImageV {
    ImageV { hash: hash_of(f.data), update: true, source_path: f.path }
}

/// The picture entry a listed file turns into: the image plus the file-stem
/// title.
pub open spec fn picture_of_file(f: FileV) -> PictureV {
    PictureV { title: stem_of(f.path), image: image_of_file(f) }
}

/// One image entry per listed file, in listing order.
pub open spec fn images_of(files: Seq<FileV>) -> Seq<ImageV> {
    files.map_values(|f: FileV| image_of_file(f))
}

/// One picture entry per listed file, in listing order.
pub open spec fn pictures_of(files: Seq<FileV>) -> Seq<PictureV> {
    files.map_values(|f: FileV| picture_of_file(f))
}

/// Only the images whose source has a supported extension, order kept.
pub open spec fn filtered_images(s: Seq<ImageV>) -> Seq<ImageV>
    decreases s.len(),
{
    if s.len() == 0 {
        s
    } else if crate::gallery::is_valid_extension(s.last().source_path) {
        filtered_images(s.drop_last()).push(s.last())
    } else {
        filtered_images(s.drop_last())
    }
}

/// Only the pictures whose source has a supported extension, order kept.
pub open spec fn filtered_pictures(s: Seq<PictureV>) -> Seq<PictureV>
    decreases s.len(),
{
    if s.len() == 0 {
        s
    } else if crate::gallery::is_valid_extension(s.last().image.source_path) {
        filtered_pictures(s.drop_last()).push(s.last())
    } else {
        filtered_pictures(s.drop_last())
    }
}

/// The same pictures with every title cleared.
pub open spec fn cleared_titles(s: Seq<PictureV>) -> Seq<PictureV> {
    s.map_values(|p: PictureV| PictureV { title: Seq::empty(), image: p.image })
}

/// An image's identity is derived from the file's bytes alone: two listed
/// files with the same content get the same identity, whatever their paths
/// or names are.
pub proof fn lemma_identity_from_bytes_only(a: FileV, b: FileV)
    requires
        a.data == b.data,
    ensures
        image_of_file(a).hash == image_of_file(b).hash,
        picture_of_file(a).image.hash == picture_of_file(b).image.hash,
{
}

} // verus!

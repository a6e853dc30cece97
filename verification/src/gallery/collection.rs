//! Collections: ordered groups of pictures and backgrounds under one title.

use vstd::prelude::*;
use crate::mi::fs::{SourceFile, FileV};
use crate::gallery::picture::{
    Image, Picture, ImageV, PictureV, images_of, pictures_of, filtered_images, filtered_pictures,
    cleared_titles,
};
use crate::gallery::{
    images_from_files, pictures_from_files, filter_valid_images, filter_valid_pictures,
    clear_picture_titles,
};

verus! {

/// One requested collection: its title, the key derived from it, and the
/// listings of its picture and background directories.  `None` means the
/// caller named no such directory, which differs from an empty listing.
#[derive(Debug)]
pub struct CollectionInput {
    pub title: String,
    pub name: String,
    pub input_files: Option<Vec<SourceFile>>,
    pub background_files: Option<Vec<SourceFile>>,
}

/// The mathematical value of a [`CollectionInput`].
#[verifier::ext_equal]
pub ghost struct CollectionInputV {
    pub title: Seq<char>,
    pub name: Seq<char>,
    pub input_files: Option<Seq<FileV>>,
    pub background_files: Option<Seq<FileV>>,
}

impl View for CollectionInput {
    type V = CollectionInputV;

    open spec fn view(&self) -> CollectionInputV {
        CollectionInputV {
            title: self.title@,
            name: self.name@,
            input_files: self.input_files.deep_view(),
            background_files: self.background_files.deep_view(),
        }
    }
}

impl DeepView for CollectionInput {
    type V = CollectionInputV;

    open spec fn deep_view(&self) -> CollectionInputV {
        self.view()
    }
}

/// An ordered group of pictures and backgrounds sharing a title.
#[derive(Debug)]
pub struct Collection {
    /// Collection title as shown to the user.
    pub title: String,
    /// Collection key derived from the title.
    pub name: String,
    pub pictures: Vec<Picture>,
    pub backgrounds: Vec<Image>,
}

/// The mathematical value of a [`Collection`].
#[verifier::ext_equal]
pub ghost struct CollectionV {
    pub title: Seq<char>,
    pub name: Seq<char>,
    pub pictures: Seq<PictureV>,
    pub backgrounds: Seq<ImageV>,
}

impl View for Collection {
    type V = CollectionV;

    open spec fn view(&self) -> CollectionV {
        CollectionV {
            title: self.title@,
            name: self.name@,
            pictures: self.pictures.deep_view(),
            backgrounds: self.backgrounds.deep_view(),
        }
    }
}

impl DeepView for Collection {
    type V = CollectionV;

    open spec fn deep_view(&self) -> CollectionV {
        self.view()
    }
}

/// What construction from two listings yields: both listings filtered to
/// supported files, picture titles cleared unless filename titles were
/// asked for, and every entry still to render.
pub open spec fn collection_new_spec(
    name: Seq<char>,
    title: Seq<char>,
    picture_files: Seq<FileV>,
    background_files: Seq<FileV>,
    use_filenames_as_titles: bool,
) -> CollectionV {
    CollectionV {
        title,
        name,
        pictures: if use_filenames_as_titles {
            filtered_pictures(pictures_of(picture_files))
        } else {
            cleared_titles(filtered_pictures(pictures_of(picture_files)))
        },
        backgrounds: filtered_images(images_of(background_files)),
    }
}

/// The images of `s` whose identity is not `hash`, order kept.
pub open spec fn images_without(s: Seq<ImageV>, hash: u64) -> Seq<ImageV>
    decreases s.len(),
{
    if s.len() == 0 {
        s
    } else if s.last().hash == hash {
        images_without(s.drop_last(), hash)
    } else {
        images_without(s.drop_last(), hash).push(s.last())
    }
}

/// The pictures of `s` whose identity is not `hash`, order kept.
pub open spec fn pictures_without(s: Seq<PictureV>, hash: u64) -> Seq<PictureV>
    decreases s.len(),
{
    if s.len() == 0 {
        s
    } else if s.last().image.hash == hash {
        pictures_without(s.drop_last(), hash)
    } else {
        pictures_without(s.drop_last(), hash).push(s.last())
    }
}

/// The position of the first picture with the given identity; the length
/// when there is none.
pub open spec fn picture_index_of(s: Seq<PictureV>, hash: u64) -> int
    decreases s.len(),
{
    if s.len() == 0 {
        0
    } else if s[0].image.hash == hash {
        0
    } else {
        1 + picture_index_of(s.drop_first(), hash)
    }
}

proof fn lemma_picture_index_at(s: Seq<PictureV>, hash: u64, i: int)
    requires
        0 <= i < s.len(),
        s[i].image.hash == hash,
        forall|j: int| 0 <= j < i ==> s[j].image.hash != hash,
    ensures
        picture_index_of(s, hash) == i,
    decreases i,
{
    if i > 0 {
        lemma_picture_index_at(s.drop_first(), hash, i - 1);
    }
}

proof fn lemma_picture_index_absent(s: Seq<PictureV>, hash: u64)
    requires
        forall|j: int| 0 <= j < s.len() ==> s[j].image.hash != hash,
    ensures
        picture_index_of(s, hash) == s.len(),
    decreases s.len(),
{
    if s.len() > 0 {
        lemma_picture_index_absent(s.drop_first(), hash);
    }
}

/// Removal by identity is surgical: no image with the removed identity
/// survives, and every image with another identity survives.
pub proof fn lemma_images_without_isolation(s: Seq<ImageV>, h: u64)
    ensures
        forall|t: int|
            0 <= t < images_without(s, h).len() ==> (#[trigger] images_without(s, h)[t]).hash != h,
        forall|k: int|
            0 <= k < s.len() && (#[trigger] s[k]).hash != h ==> images_without(s, h).contains(
                s[k],
            ),
    decreases s.len(),
{
    if s.len() > 0 {
        lemma_images_without_isolation(s.drop_last(), h);
        assert forall|k: int|
            0 <= k < s.len() && (#[trigger] s[k]).hash != h implies images_without(
            s,
            h,
        ).contains(s[k]) by {
            if k < s.len() - 1 {
                assert(s.drop_last()[k] == s[k]);
                assert(images_without(s.drop_last(), h).contains(s[k]));
                let i = choose|i: int|
                    0 <= i < images_without(s.drop_last(), h).len() && images_without(
                        s.drop_last(),
                        h,
                    )[i] == s[k];
                if s.last().hash == h {
                    assert(images_without(s, h)[i] == s[k]);
                } else {
                    assert(images_without(s, h)[i] == s[k]);
                }
            } else {
                assert(s[k] == s.last());
                assert(images_without(s, h).last() == s.last());
            }
        }
    }
}

/// The picture-side counterpart of [`lemma_images_without_isolation`].
pub proof fn lemma_pictures_without_isolation(s: Seq<PictureV>, h: u64)
    ensures
        forall|t: int|
            0 <= t < pictures_without(s, h).len()
                ==> (#[trigger] pictures_without(s, h)[t]).image.hash != h,
        forall|k: int|
            0 <= k < s.len() && (#[trigger] s[k]).image.hash != h ==> pictures_without(
                s,
                h,
            ).contains(s[k]),
    decreases s.len(),
{
    if s.len() > 0 {
        lemma_pictures_without_isolation(s.drop_last(), h);
        assert forall|k: int|
            0 <= k < s.len() && (#[trigger] s[k]).image.hash != h implies pictures_without(
            s,
            h,
        ).contains(s[k]) by {
            if k < s.len() - 1 {
                assert(s.drop_last()[k] == s[k]);
                assert(pictures_without(s.drop_last(), h).contains(s[k]));
                let i = choose|i: int|
                    0 <= i < pictures_without(s.drop_last(), h).len() && pictures_without(
                        s.drop_last(),
                        h,
                    )[i] == s[k];
                if s.last().image.hash == h {
                    assert(pictures_without(s, h)[i] == s[k]);
                } else {
                    assert(pictures_without(s, h)[i] == s[k]);
                }
            } else {
                assert(s[k] == s.last());
                assert(pictures_without(s, h).last() == s.last());
            }
        }
    }
}

impl Collection {
    /// Builds a collection from the two directory listings: unsupported
    /// files are dropped silently, every kept entry needs rendering, and
    /// picture titles are cleared unless filename titles were asked for.
    pub fn new(
        name: String,
        title: String,
        picture_files: Vec<SourceFile>,
        background_files: Vec<SourceFile>,
        use_filenames_as_titles: bool,
    ) -> (r: Collection)
        ensures
            r@ == collection_new_spec(
                name@,
                title@,
                picture_files.deep_view(),
                background_files.deep_view(),
                use_filenames_as_titles,
            ),
    {
        let mut pictures: Vec<Picture> = pictures_from_files(&picture_files);
        filter_valid_pictures(&mut pictures);
        if !use_filenames_as_titles {
            clear_picture_titles(&mut pictures);
        }

        let mut backgrounds: Vec<Image> = images_from_files(&background_files);
        filter_valid_images(&mut backgrounds);

        Collection { title, name, pictures, backgrounds }
    }

    /// Concatenates another collection onto this one: existing entries
    /// first, the other's after, both orders kept.
    pub fn append(&mut self, other: Collection)
        ensures
            final(self)@.title == old(self)@.title,
            final(self)@.name == old(self)@.name,
            final(self)@.pictures == old(self)@.pictures + other@.pictures,
            final(self)@.backgrounds == old(self)@.backgrounds + other@.backgrounds,
    {
        let ghost ov = other@;
        let mut other = other;
        self.pictures.append(&mut other.pictures);
        self.backgrounds.append(&mut other.backgrounds);
        proof {
            assert(self.pictures.deep_view() =~= old(self)@.pictures + ov.pictures);
            assert(self.backgrounds.deep_view() =~= old(self)@.backgrounds + ov.backgrounds);
        }
    }

    /// Deletes every picture and background whose identity equals `hash`;
    /// the order of what remains is kept.
    pub fn remove_resource(&mut self, hash: u64)
        ensures
            final(self)@.title == old(self)@.title,
            final(self)@.name == old(self)@.name,
            final(self)@.pictures == pictures_without(old(self)@.pictures, hash),
            final(self)@.backgrounds == images_without(old(self)@.backgrounds, hash),
    {
        let ghost obs = old(self)@.backgrounds;
        let mut backgrounds: Vec<Image> = Vec::new();
        let mut i: usize = 0;
        while i < self.backgrounds.len()
            invariant
                i <= self.backgrounds@.len(),
                self.backgrounds.deep_view() == obs,
                backgrounds.deep_view() == images_without(obs.take(i as int), hash),
            decreases self.backgrounds@.len() - i,
        {
            proof {
                assert(self.backgrounds.deep_view()[i as int] == obs[i as int]);
                assert(obs.take(i + 1).drop_last() =~= obs.take(i as int));
            }
            if self.backgrounds[i].hash != hash {
                backgrounds.push(
                    Image {
                        hash: self.backgrounds[i].hash,
                        update: self.backgrounds[i].update,
                        source_path: self.backgrounds[i].source_path.clone(),
                    },
                );
                proof {
                    assert(backgrounds.deep_view() =~= images_without(obs.take(i as int), hash)
                        .push(obs[i as int]));
                }
            }
            i = i + 1;
        }
        proof {
            assert(obs.take(obs.len() as int) =~= obs);
        }
        self.backgrounds = backgrounds;

        let ghost ops = old(self)@.pictures;
        let mut pictures: Vec<Picture> = Vec::new();
        let mut i: usize = 0;
        while i < self.pictures.len()
            invariant
                i <= self.pictures@.len(),
                self.pictures.deep_view() == ops,
                pictures.deep_view() == pictures_without(ops.take(i as int), hash),
            decreases self.pictures@.len() - i,
        {
            proof {
                assert(self.pictures.deep_view()[i as int] == ops[i as int]);
                assert(ops.take(i + 1).drop_last() =~= ops.take(i as int));
            }
            if self.pictures[i].image.hash != hash {
                pictures.push(
                    Picture {
                        title: self.pictures[i].title.clone(),
                        image: Image {
                            hash: self.pictures[i].image.hash,
                            update: self.pictures[i].image.update,
                            source_path: self.pictures[i].image.source_path.clone(),
                        },
                    },
                );
                proof {
                    assert(pictures.deep_view() =~= pictures_without(ops.take(i as int), hash)
                        .push(ops[i as int]));
                }
            }
            i = i + 1;
        }
        proof {
            assert(ops.take(ops.len() as int) =~= ops);
        }
        self.pictures = pictures;
    }

    /// The first picture with the given identity, if any.
    pub fn get_picture(&self, hash: u64) -> (r: Option<&Picture>)
        ensures
            ({
                let idx = picture_index_of(self@.pictures, hash);
                if idx < self@.pictures.len() {
                    r matches Some(p) && p@ == self@.pictures[idx]
                } else {
                    r is None
                }
            }),
    {
        let mut i: usize = 0;
        while i < self.pictures.len()
            invariant
                i <= self@.pictures.len(),
                forall|j: int| 0 <= j < i ==> self@.pictures[j].image.hash != hash,
            decreases self@.pictures.len() - i,
        {
            proof {
                assert(self.pictures.deep_view()[i as int] == self@.pictures[i as int]);
            }
            if self.pictures[i].image.hash == hash {
                proof {
                    lemma_picture_index_at(self@.pictures, hash, i as int);
                }
                return Some(&self.pictures[i]);
            }
            i = i + 1;
        }
        proof {
            lemma_picture_index_absent(self@.pictures, hash);
        }
        None
    }
}

} // verus!

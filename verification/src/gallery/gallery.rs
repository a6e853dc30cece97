//! The gallery: an ordered set of named collections and what it owes.
//!
//! A gallery keeps its collection keys in first-seen order; every key has
//! exactly one collection, at the same position, and no key repeats.

use vstd::prelude::*;
use crate::mi::img::Resolution;
use crate::gallery::collection::{
    Collection, CollectionV, CollectionInput, CollectionInputV, collection_new_spec,
};
use crate::gallery::picture::{Image, Picture, ImageV, PictureV};
use crate::gallery::GALLERY_CONFIGURATION_VERSION;
use crate::mi::fs::{dec_str, u64_to_string};
use crate::mi::json::{
    JsonData, JsonDataV, JsonType, props_view, arr_view, str_node, num_node, obj_node, arr_node,
    spec_stringify, string_value, number_value, lemma_props_view_full,
};
use vstd::string::StringExecFns;
use crate::configuration::Configuration;
use crate::configuration::ConfigurationV;

verus! {

/// The top-level aggregate: named collections in first-seen order, the
/// archive registry, output resolutions and the manifest format version.
#[derive(Debug)]
pub struct Gallery {
    pub version: u16,
    pub extension: String,
    /// Archive registry: name to relative path, unique names.
    pub archives: Vec<(String, String)>,
    /// Collection keys, first-seen insertion order, no duplicates.
    pub collection_keys: Vec<String>,
    /// One collection per key, in the same order.
    pub collections: Vec<Collection>,
    pub res_background: Resolution,
    pub res_display: Resolution,
    pub res_thumb: Resolution,
}

/// The mathematical value of a [`Gallery`].
#[verifier::ext_equal]
pub ghost struct GalleryV {
    pub version: u16,
    pub extension: Seq<char>,
    pub archives: Seq<(Seq<char>, Seq<char>)>,
    pub collection_keys: Seq<Seq<char>>,
    pub collections: Seq<CollectionV>,
    pub res_background: Resolution,
    pub res_display: Resolution,
    pub res_thumb: Resolution,
}

/// The archive registry as pairs of character sequences.
pub open spec fn archives_view(s: Seq<(String, String)>) -> Seq<(Seq<char>, Seq<char>)> {
    s.map_values(|p: (String, String)| (p.0@, p.1@))
}

impl View for Gallery {
    type V = GalleryV;

    open spec fn view(&self) -> GalleryV {
        GalleryV {
            version: self.version,
            extension: self.extension@,
            archives: archives_view(self.archives@),
            collection_keys: self.collection_keys.deep_view(),
            collections: self.collections.deep_view(),
            res_background: self.res_background,
            res_display: self.res_display,
            res_thumb: self.res_thumb,
        }
    }
}

impl GalleryV {
    /// Key list and collection list agree position by position, and no key
    /// repeats.
    pub open spec fn wf(self) -> bool {
        &&& self.collection_keys.len() == self.collections.len()
        &&& forall|i: int|
            0 <= i < self.collections.len() ==> #[trigger] self.collections[i].name
                == self.collection_keys[i]
        &&& forall|i: int, j: int|
            0 <= i < j < self.collection_keys.len() ==> self.collection_keys[i]
                != self.collection_keys[j]
    }
}

/// Default thumbnail resolution.
pub open spec fn default_res_thumb() -> Resolution {
    Resolution { width: 960, height: 540 }
}

/// Default display resolution.
pub open spec fn default_res_display() -> Resolution {
    Resolution { width: 2560, height: 1440 }
}

/// Default background resolution.
pub open spec fn default_res_background() -> Resolution {
    Resolution { width: 2560, height: 1440 }
}

/// What an empty gallery looks like.
pub open spec fn empty_gallery() -> GalleryV {
    GalleryV {
        version: GALLERY_CONFIGURATION_VERSION,
        extension: "jpg"@,
        archives: Seq::empty(),
        collection_keys: Seq::empty(),
        collections: Seq::empty(),
        res_background: default_res_background(),
        res_display: default_res_display(),
        res_thumb: default_res_thumb(),
    }
}

/// The position of `name` in the key list; its length when absent.
pub open spec fn key_index(keys: Seq<Seq<char>>, name: Seq<char>) -> int
    decreases keys.len(),
{
    if keys.len() == 0 {
        0
    } else if keys[0] == name {
        0
    } else {
        1 + key_index(keys.drop_first(), name)
    }
}

/// Whether `name` is one of the keys.
pub open spec fn has_key(keys: Seq<Seq<char>>, name: Seq<char>) -> bool {
    key_index(keys, name) < keys.len()
}

proof fn lemma_key_index_at(keys: Seq<Seq<char>>, name: Seq<char>, i: int)
    requires
        0 <= i < keys.len(),
        keys[i] == name,
        forall|j: int| 0 <= j < i ==> keys[j] != name,
    ensures
        key_index(keys, name) == i,
    decreases i,
{
    if i > 0 {
        lemma_key_index_at(keys.drop_first(), name, i - 1);
    }
}

proof fn lemma_key_index_absent(keys: Seq<Seq<char>>, name: Seq<char>)
    requires
        forall|j: int| 0 <= j < keys.len() ==> keys[j] != name,
    ensures
        key_index(keys, name) == keys.len(),
    decreases keys.len(),
{
    if keys.len() > 0 {
        lemma_key_index_absent(keys.drop_first(), name);
    }
}

/// The first occurrence of a key is no later than any occurrence.
proof fn lemma_key_index_le(keys: Seq<Seq<char>>, name: Seq<char>, j: int)
    requires
        0 <= j < keys.len(),
        keys[j] == name,
    ensures
        key_index(keys, name) <= j,
    decreases j,
{
    if j > 0 && keys[0] != name {
        lemma_key_index_le(keys.drop_first(), name, j - 1);
    }
}

/// A found key is a real key.
pub proof fn lemma_key_index_in_range(keys: Seq<Seq<char>>, name: Seq<char>)
    ensures
        0 <= key_index(keys, name) <= keys.len(),
        has_key(keys, name) ==> keys[key_index(keys, name)] == name,
    decreases keys.len(),
{
    if keys.len() > 0 && keys[0] != name {
        lemma_key_index_in_range(keys.drop_first(), name);
    }
}

/// What one requested input does to a gallery: named directories are read
/// as their listings (a missing one as an empty listing); the collection
/// built from them is appended onto the collection that already has the
/// key, or inserted under the new key; a new key without a picture
/// directory is refused.
pub open spec fn fill_one(g: GalleryV, c: CollectionInputV, use_titles: bool) -> Result<
    GalleryV,
    Seq<char>,
> {
    let pics = match c.input_files {
        Some(l) => l,
        None => Seq::empty(),
    };
    let bgs = match c.background_files {
        Some(l) => l,
        None => Seq::empty(),
    };
    let col = collection_new_spec(c.name, c.title, pics, bgs, use_titles);
    if has_key(g.collection_keys, c.name) {
        let k = key_index(g.collection_keys, c.name);
        let merged = CollectionV {
            title: g.collections[k].title,
            name: g.collections[k].name,
            pictures: g.collections[k].pictures + col.pictures,
            backgrounds: g.collections[k].backgrounds + col.backgrounds,
        };
        Ok(GalleryV { collections: g.collections.update(k, merged), ..g })
    } else if c.input_files is None {
        Err("Cannot create new collection without input directory: "@ + c.title)
    } else {
        Ok(
            GalleryV {
                collection_keys: g.collection_keys.push(c.name),
                collections: g.collections.push(col),
                ..g
            },
        )
    }
}

/// What a whole `fill` call does: inputs in order, stopping at the first
/// refused one; collections applied before the refusal stay applied.
pub open spec fn spec_fill(g: GalleryV, inputs: Seq<CollectionInputV>, use_titles: bool) -> (
    GalleryV,
    Option<Seq<char>>,
)
    decreases inputs.len(),
{
    if inputs.len() == 0 {
        (g, None)
    } else {
        match fill_one(g, inputs[0], use_titles) {
            Ok(g2) => spec_fill(g2, inputs.drop_first(), use_titles),
            Err(m) => (g, Some(m)),
        }
    }
}

impl Gallery {
    /// An empty gallery with the current format version and the default
    /// resolutions.
    pub fn new() -> (g: Gallery)
        ensures
            g@ == empty_gallery(),
            g@.wf(),
    {
        let g = Gallery {
            version: GALLERY_CONFIGURATION_VERSION,
            extension: crate::gallery::picture_extension(),
            archives: Vec::new(),
            collection_keys: Vec::new(),
            collections: Vec::new(),
            res_background: Resolution { width: 2560, height: 1440 },
            res_display: Resolution { width: 2560, height: 1440 },
            res_thumb: Resolution { width: 960, height: 540 },
        };
        proof {
            assert(g@.archives =~= empty_gallery().archives);
            assert(g@.collection_keys =~= empty_gallery().collection_keys);
            assert(g@.collections =~= empty_gallery().collections);
        }
        g
    }

    /// The position of a collection key, if the gallery has it.
    pub(crate) fn find_key(&self, name: &String) -> (r: Option<usize>)
        ensures
            match r {
                Some(i) => i == key_index(self@.collection_keys, name@) && has_key(
                    self@.collection_keys,
                    name@,
                ),
                None => !has_key(self@.collection_keys, name@),
            },
    {
        let mut i: usize = 0;
        while i < self.collection_keys.len()
            invariant
                i <= self@.collection_keys.len(),
                forall|j: int| 0 <= j < i ==> self@.collection_keys[j] != name@,
            decreases self@.collection_keys.len() - i,
        {
            proof {
                assert(self.collection_keys.deep_view()[i as int] == self.collection_keys@[
                    i as int
                ]@);
            }
            if self.collection_keys[i] == *name {
                proof {
                    lemma_key_index_at(self@.collection_keys, name@, i as int);
                }
                return Some(i);
            }
            i = i + 1;
        }
        proof {
            lemma_key_index_absent(self@.collection_keys, name@);
        }
        None
    }

    /// The collection stored under `name`, if any.
    pub fn get_collection(&self, name: &String) -> (r: Option<&Collection>)
        ensures
            ({
                let k = key_index(self@.collection_keys, name@);
                if k < self@.collection_keys.len() && k < self@.collections.len() {
                    r matches Some(c) && c@ == self@.collections[k]
                } else {
                    r is None
                }
            }),
    {
        match self.find_key(name) {
            Some(k) => if k < self.collections.len() {
                let c = &self.collections[k];
                proof {
                    assert(c@ == self@.collections[k as int]);
                }
                Some(c)
            } else {
                None
            },
            None => None,
        }
    }

    /// Creates or merges the requested collections, in the given order.  A
    /// request whose key is new and that names no picture directory is
    /// refused with an error that names its title; requests already applied
    /// stay applied.
    pub fn fill(
        &mut self,
        collection_inputs: Vec<CollectionInput>,
        use_filenames_as_titles: bool,
    ) -> (r: Result<(), String>)
        requires
            old(self)@.wf(),
        ensures
            final(self)@.wf(),
            final(self)@ == spec_fill(
                old(self)@,
                collection_inputs.deep_view(),
                use_filenames_as_titles,
            ).0,
            match r {
                Ok(()) => spec_fill(
                    old(self)@,
                    collection_inputs.deep_view(),
                    use_filenames_as_titles,
                ).1 is None,
                Err(m) => spec_fill(
                    old(self)@,
                    collection_inputs.deep_view(),
                    use_filenames_as_titles,
                ).1 == Some(m@),
            },
    {
        let ghost orig_inputs = collection_inputs.deep_view();
        let mut inputs = collection_inputs;
        while inputs.len() > 0
            invariant
                orig_inputs == collection_inputs.deep_view(),
                self@.wf(),
                spec_fill(old(self)@, orig_inputs, use_filenames_as_titles) == spec_fill(
                    self@,
                    inputs.deep_view(),
                    use_filenames_as_titles,
                ),
            decreases inputs@.len(),
        {
            let ghost pre = self@;
            let ghost remaining = inputs.deep_view();
            let c = inputs.remove(0);
            proof {
                assert(inputs.deep_view() =~= remaining.drop_first());
                assert(c@ == remaining[0]);
            }

            let exists_at = self.find_key(&c.name);

            let background_files = match c.background_files {
                Some(d) => d,
                None => Vec::new(),
            };
            let had_input = c.input_files.is_some();
            let picture_files = match c.input_files {
                Some(d) => d,
                None => Vec::new(),
            };
            proof {
                if background_files.deep_view().len() == 0 {
                    assert(background_files.deep_view() =~= Seq::<crate::mi::fs::FileV>::empty());
                }
                if picture_files.deep_view().len() == 0 {
                    assert(picture_files.deep_view() =~= Seq::<crate::mi::fs::FileV>::empty());
                }
            }

            let collection = Collection::new(
                c.name.clone(),
                c.title.clone(),
                picture_files,
                background_files,
                use_filenames_as_titles,
            );

            match exists_at {
                Some(k) => {
                    proof {
                        lemma_key_index_in_range(pre.collection_keys, c.name@);
                    }
                    let mut col = self.collections.remove(k);
                    col.append(collection);
                    self.collections.insert(k, col);
                    proof {
                        let merged = match fill_one(pre, remaining[0], use_filenames_as_titles) {
                            Ok(g2) => g2,
                            Err(_) => pre,
                        };
                        assert(self.collections.deep_view() =~~= merged.collections);
                        assert(self@ =~~= merged);
                        assert(self@.wf());
                    }
                },
                None => {
                    if !had_input {
                        let m = String::from_str(
                            "Cannot create new collection without input directory: ",
                        ).concat(c.title.as_str());
                        proof {
                            assert(fill_one(pre, remaining[0], use_filenames_as_titles) == Err::<
                                GalleryV,
                                Seq<char>,
                            >(m@));
                        }
                        return Err(m);
                    }
                    self.collection_keys.push(c.name);
                    self.collections.push(collection);
                    proof {
                        let grown = match fill_one(pre, remaining[0], use_filenames_as_titles) {
                            Ok(g2) => g2,
                            Err(_) => pre,
                        };
                        assert(self.collection_keys.deep_view() =~= grown.collection_keys);
                        assert(self.collections.deep_view() =~~= grown.collections);
                        assert(self@ =~~= grown);
                        assert forall|j: int| 0 <= j < pre.collection_keys.len() implies pre
                            .collection_keys[j] != c.name@ by {
                            if pre.collection_keys[j] == c.name@ {
                                lemma_key_index_le(pre.collection_keys, c.name@, j);
                            }
                        }
                        assert(self@.wf());
                    }
                },
            }
        }
        proof {
            assert(inputs.deep_view() =~= Seq::<CollectionInputV>::empty());
        }
        Ok(())
    }
}

/// The images a collection contributes to the gallery-wide iteration
/// order: backgrounds first, then the pictures' images.
pub open spec fn col_images(c: CollectionV) -> Seq<ImageV> {
    c.backgrounds + c.pictures.map_values(|p: PictureV| p.image)
}

/// The images of the collections from `i` on, flattened in iteration
/// order.
pub open spec fn flat_from(cols: Seq<CollectionV>, i: int) -> Seq<ImageV>
    decreases cols.len() - i,
{
    if i < 0 || i >= cols.len() {
        Seq::empty()
    } else {
        col_images(cols[i]) + flat_from(cols, i + 1)
    }
}

/// Every image of the gallery, in iteration order: collections in key
/// order, backgrounds before pictures within each.
pub open spec fn flat_images(g: GalleryV) -> Seq<ImageV> {
    flat_from(g.collections, 0)
}

/// Where the images of collection `i` start in the flattened order.
pub open spec fn flat_offset(cols: Seq<CollectionV>, i: int) -> int
    decreases i,
{
    if i <= 0 {
        0
    } else {
        flat_offset(cols, i - 1) + col_images(cols[i - 1]).len()
    }
}

/// The position of the first image with identity `h`; the length when
/// there is none.
pub open spec fn first_hash_index(s: Seq<ImageV>, h: u64) -> int
    decreases s.len(),
{
    if s.len() == 0 {
        0
    } else if s[0].hash == h {
        0
    } else {
        1 + first_hash_index(s.drop_first(), h)
    }
}

/// How many of the images carry identity `h`.
pub open spec fn count_hash(s: Seq<ImageV>, h: u64) -> int
    decreases s.len(),
{
    if s.len() == 0 {
        0
    } else {
        count_hash(s.drop_last(), h) + if s.last().hash == h {
            1int
        } else {
            0int
        }
    }
}

/// What a duplicate is rewritten to: the replacement's identity and
/// source, no rendering owed.
pub open spec fn rewritten_image(w: ImageV) -> ImageV {
    ImageV { hash: w.hash, update: false, source_path: w.source_path }
}

/// The flattened images after one replacement pass: every image with
/// identity `h` except the first is rewritten to reference `w`.
pub open spec fn replaced_flat(f: Seq<ImageV>, h: u64, w: ImageV) -> Seq<ImageV> {
    Seq::new(
        f.len(),
        |t: int|
            if f[t].hash == h && t != first_hash_index(f, h) {
                rewritten_image(w)
            } else {
                f[t]
            },
    )
}

/// What image `k` looks like once duplicates are collapsed: the first
/// image of each identity is untouched; every later one references the
/// first and no longer needs rendering.
pub open spec fn dedup_image(f: Seq<ImageV>, k: int) -> ImageV {
    let fi = first_hash_index(f, f[k].hash);
    if fi == k {
        f[k]
    } else {
        ImageV { hash: f[k].hash, update: false, source_path: f[fi].source_path }
    }
}

/// The flattened images once duplicates are collapsed.
pub open spec fn deduped(f: Seq<ImageV>) -> Seq<ImageV> {
    Seq::new(f.len(), |k: int| dedup_image(f, k))
}

/// The rewrite state after the first `k` flat positions have been
/// examined: groups whose first member sits before `k` are collapsed.
pub open spec fn partial_dedup(f: Seq<ImageV>, k: int) -> Seq<ImageV> {
    Seq::new(
        f.len(),
        |t: int|
            {
                let fi = first_hash_index(f, f[t].hash);
                if fi < k && t != fi {
                    ImageV { hash: f[t].hash, update: false, source_path: f[fi].source_path }
                } else {
                    f[t]
                }
            },
    )
}

/// `g` with its collections swapped out and everything else kept.
pub open spec fn with_collections(g: GalleryV, cols: Seq<CollectionV>) -> GalleryV {
    GalleryV { collections: cols, ..g }
}

/// The two collection lists agree on everything but the images' renderable
/// fields: same length, titles, names, picture titles and entry counts.
pub open spec fn same_shape(a: Seq<CollectionV>, b: Seq<CollectionV>) -> bool {
    &&& a.len() == b.len()
    &&& forall|i: int|
        0 <= i < a.len() ==> {
            &&& (#[trigger] b[i]).title == a[i].title
            &&& b[i].name == a[i].name
            &&& b[i].pictures.len() == a[i].pictures.len()
            &&& b[i].backgrounds.len() == a[i].backgrounds.len()
            &&& forall|t: int|
                0 <= t < a[i].pictures.len() ==> (#[trigger] b[i].pictures[t]).title
                    == a[i].pictures[t].title
        }
}

/// The flat suffix from `i` is the flat sequence with the first
/// `flat_offset(cols, i)` images dropped.
proof fn lemma_flat_skip(cols: Seq<CollectionV>, i: int)
    requires
        0 <= i <= cols.len(),
    ensures
        0 <= flat_offset(cols, i),
        flat_offset(cols, i) + flat_from(cols, i).len() == flat_from(cols, 0).len(),
        flat_from(cols, i) == flat_from(cols, 0).skip(flat_offset(cols, i)),
    decreases i,
{
    if i == 0 {
        assert(flat_from(cols, 0).skip(0) =~= flat_from(cols, 0));
    } else {
        lemma_flat_skip(cols, i - 1);
        assert(flat_from(cols, i - 1) == col_images(cols[i - 1]) + flat_from(cols, i));
        assert(flat_from(cols, i) =~= flat_from(cols, i - 1).skip(
            col_images(cols[i - 1]).len() as int,
        ));
        assert(flat_from(cols, 0).skip(flat_offset(cols, i - 1)).skip(
            col_images(cols[i - 1]).len() as int,
        ) =~= flat_from(cols, 0).skip(flat_offset(cols, i)));
    }
}

/// The images of collection `j` are a slice of the flat sequence.
proof fn lemma_col_slice(cols: Seq<CollectionV>, j: int)
    requires
        0 <= j < cols.len(),
    ensures
        0 <= flat_offset(cols, j),
        flat_offset(cols, j) + col_images(cols[j]).len() <= flat_from(cols, 0).len(),
        col_images(cols[j]) == flat_from(cols, 0).subrange(
            flat_offset(cols, j),
            flat_offset(cols, j) + col_images(cols[j]).len(),
        ),
{
    lemma_flat_skip(cols, j);
    assert(flat_from(cols, j) == col_images(cols[j]) + flat_from(cols, j + 1));
    assert(col_images(cols[j]) =~= flat_from(cols, 0).subrange(
        flat_offset(cols, j),
        flat_offset(cols, j) + col_images(cols[j]).len(),
    ));
}

/// If every collection's images match the corresponding slice of `g`, the
/// whole flat suffix matches `g` from that offset on.
proof fn lemma_flat_matches(
    cols_a: Seq<CollectionV>,
    cols_b: Seq<CollectionV>,
    g: Seq<ImageV>,
    i: int,
)
    requires
        cols_b.len() == cols_a.len(),
        0 <= i <= cols_a.len(),
        g.len() == flat_from(cols_a, 0).len(),
        forall|j: int|
            0 <= j < cols_a.len() ==> col_images(#[trigger] cols_b[j]) == g.subrange(
                flat_offset(cols_a, j),
                flat_offset(cols_a, j) + col_images(cols_a[j]).len(),
            ),
    ensures
        flat_from(cols_b, i) == g.skip(flat_offset(cols_a, i)),
    decreases cols_a.len() - i,
{
    lemma_flat_skip(cols_a, i);
    if i == cols_a.len() {
        assert(flat_from(cols_b, i) =~= g.skip(flat_offset(cols_a, i)));
    } else {
        lemma_flat_matches(cols_a, cols_b, g, i + 1);
        lemma_col_slice(cols_a, i);
        assert(flat_from(cols_b, i) == col_images(cols_b[i]) + flat_from(cols_b, i + 1));
        assert(col_images(cols_b[i]).len() == col_images(cols_a[i]).len());
        assert(flat_from(cols_b, i) =~= g.skip(flat_offset(cols_a, i)));
    }
}

/// No image before `q` carries `h` exactly when the running count at `q`
/// is zero.
proof fn lemma_count_zero(s: Seq<ImageV>, h: u64, q: int)
    requires
        0 <= q <= s.len(),
    ensures
        (count_hash(s.take(q), h) == 0) <==> (forall|j: int| 0 <= j < q ==> s[j].hash != h),
    decreases q,
{
    if q > 0 {
        lemma_count_zero(s, h, q - 1);
        assert(s.take(q).drop_last() =~= s.take(q - 1));
        assert(s.take(q).last() == s[q - 1]);
        if s[q - 1].hash != h && count_hash(s.take(q - 1), h) == 0 {
        }
        lemma_count_nonneg(s.take(q - 1), h);
    }
}

proof fn lemma_count_nonneg(s: Seq<ImageV>, h: u64)
    ensures
        count_hash(s, h) >= 0,
    decreases s.len(),
{
    if s.len() > 0 {
        lemma_count_nonneg(s.drop_last(), h);
    }
}

/// The first image with `h` at `i`, when `h` occurs there and nowhere
/// earlier.
proof fn lemma_first_hash_at(s: Seq<ImageV>, h: u64, i: int)
    requires
        0 <= i < s.len(),
        s[i].hash == h,
        forall|j: int| 0 <= j < i ==> s[j].hash != h,
    ensures
        first_hash_index(s, h) == i,
    decreases i,
{
    if i > 0 {
        lemma_first_hash_at(s.drop_first(), h, i - 1);
    }
}

/// The first occurrence of `h` is no later than any occurrence.
proof fn lemma_first_hash_le(s: Seq<ImageV>, h: u64, j: int)
    requires
        0 <= j < s.len(),
        s[j].hash == h,
    ensures
        first_hash_index(s, h) <= j,
        0 <= first_hash_index(s, h),
        s[first_hash_index(s, h)].hash == h,
    decreases j,
{
    if j > 0 && s[0].hash != h {
        lemma_first_hash_le(s.drop_first(), h, j - 1);
    }
}

/// The first occurrence depends on the identities alone.
proof fn lemma_first_same_hashes(a: Seq<ImageV>, b: Seq<ImageV>, h: u64)
    requires
        a.len() == b.len(),
        forall|t: int| 0 <= t < a.len() ==> (#[trigger] a[t]).hash == b[t].hash,
    ensures
        first_hash_index(a, h) == first_hash_index(b, h),
    decreases a.len(),
{
    if a.len() > 0 {
        assert(a[0].hash == b[0].hash);
        if a[0].hash != h {
            lemma_first_same_hashes(a.drop_first(), b.drop_first(), h);
        }
    }
}

/// A processed collection: unchanged shape, and its images equal to the
/// matching slice of `g`.
pub open spec fn col_matches(a: CollectionV, b: CollectionV, g: Seq<ImageV>, off: int) -> bool {
    &&& b.title == a.title
    &&& b.name == a.name
    &&& b.backgrounds.len() == a.backgrounds.len()
    &&& b.pictures.len() == a.pictures.len()
    &&& forall|t: int|
        0 <= t < a.pictures.len() ==> (#[trigger] b.pictures[t]).title == a.pictures[t].title
    &&& col_images(b) == g.subrange(off, off + col_images(a).len())
}

impl Gallery {
    /// Rewrites every image with the given identity, except the first in
    /// iteration order, to reference `with`: its identity and source path
    /// are taken over and no rendering is owed any more.  The first match
    /// keeps its fields.
    pub fn replace_image(&mut self, hash: u64, with: &Image)
        requires
            old(self)@.wf(),
        ensures
            final(self)@.wf(),
            final(self)@ == with_collections(old(self)@, final(self)@.collections),
            same_shape(old(self)@.collections, final(self)@.collections),
            flat_images(final(self)@) == replaced_flat(flat_images(old(self)@), hash, with@),
    {
        let ghost cols0 = old(self)@.collections;
        let ghost f = flat_images(old(self)@);
        let ghost wv = with@;
        let ghost rep = replaced_flat(f, hash, wv);

        let mut seen = false;
        let n = self.collections.len();
        let mut ci: usize = 0;
        while ci < n
            invariant
                n == cols0.len(),
                self@.collections.len() == cols0.len(),
                ci <= n,
                wv == with@,
                f == flat_from(cols0, 0),
                rep == replaced_flat(f, hash, wv),
                self@ == with_collections(old(self)@, self@.collections),
                forall|j: int| ci <= j < n ==> self@.collections[j] == cols0[j],
                forall|j: int|
                    0 <= j < ci ==> col_matches(
                        cols0[j],
                        #[trigger] self@.collections[j],
                        rep,
                        flat_offset(cols0, j),
                    ),
                seen == (count_hash(f.take(flat_offset(cols0, ci as int)), hash) > 0),
            decreases n - ci,
        {
            let ghost off = flat_offset(cols0, ci as int);
            let ghost cv = cols0[ci as int];
            proof {
                lemma_col_slice(cols0, ci as int);
            }

            let ghost pre_cols = self@.collections;
            let col = self.collections.remove(ci);
            proof {
                assert(col@ == cv);
            }
            let ghost lb = cv.backgrounds.len() as int;
            let ghost lp = cv.pictures.len() as int;

            let mut backgrounds: Vec<Image> = Vec::new();
            let mut t: usize = 0;
            while t < col.backgrounds.len()
                invariant
                    col@ == cv,
                    wv == with@,
                    rep == replaced_flat(f, hash, wv),
                    0 <= off,
                    off + col_images(cv).len() <= f.len(),
                    col_images(cv) == f.subrange(off, off + col_images(cv).len()),
                    t <= cv.backgrounds.len(),
                    backgrounds.deep_view().len() == t,
                    forall|q: int|
                        0 <= q < t ==> backgrounds.deep_view()[q] == rep[off + q],
                    seen == (count_hash(f.take(off + t), hash) > 0),
                decreases cv.backgrounds.len() - t,
            {
                let ghost q = off + t;
                proof {
                    assert(col_images(cv)[t as int] == cv.backgrounds[t as int]);
                    assert(f[q] == cv.backgrounds[t as int]);
                    assert(col.backgrounds.deep_view()[t as int] == cv.backgrounds[t as int]);
                    assert(f.take(q + 1).drop_last() =~= f.take(q));
                    assert(f.take(q + 1).last() == f[q]);
                    lemma_count_nonneg(f.take(q), hash);
                    lemma_count_zero(f, hash, q);
                }
                let is_match = col.backgrounds[t].hash == hash;
                let img = if is_match && !seen {
                    seen = true;
                    proof {
                        lemma_first_hash_at(f, hash, q);
                        assert(rep[q] == f[q]);
                    }
                    Image {
                        hash: col.backgrounds[t].hash,
                        update: col.backgrounds[t].update,
                        source_path: col.backgrounds[t].source_path.clone(),
                    }
                } else if is_match {
                    proof {
                        let j = choose|j: int| 0 <= j < q && f[j].hash == hash;
                        lemma_first_hash_le(f, hash, j);
                        assert(rep[q] == rewritten_image(wv));
                    }
                    Image { hash: with.hash, update: false, source_path: with.source_path.clone() }
                } else {
                    proof {
                        assert(rep[q] == f[q]);
                    }
                    Image {
                        hash: col.backgrounds[t].hash,
                        update: col.backgrounds[t].update,
                        source_path: col.backgrounds[t].source_path.clone(),
                    }
                };
                proof {
                    assert(img@ =~= rep[q]);
                }
                let ghost prev_dv = backgrounds.deep_view();
                backgrounds.push(img);
                proof {
                    assert(backgrounds.deep_view() =~= prev_dv.push(rep[q]));
                }
                t = t + 1;
            }

            let mut pictures: Vec<Picture> = Vec::new();
            let mut t: usize = 0;
            while t < col.pictures.len()
                invariant
                    col@ == cv,
                    wv == with@,
                    rep == replaced_flat(f, hash, wv),
                    0 <= off,
                    lb == cv.backgrounds.len(),
                    off + col_images(cv).len() <= f.len(),
                    col_images(cv) == f.subrange(off, off + col_images(cv).len()),
                    t <= cv.pictures.len(),
                    pictures.deep_view().len() == t,
                    forall|q: int|
                        0 <= q < t ==> (#[trigger] pictures.deep_view()[q]).image == rep[off + lb
                            + q] && pictures.deep_view()[q].title == cv.pictures[q].title,
                    seen == (count_hash(f.take(off + lb + t), hash) > 0),
            decreases cv.pictures.len() - t,
            {
                let ghost q = off + lb + t;
                proof {
                    assert(col_images(cv)[lb + t] == cv.pictures.map_values(
                        |p: PictureV| p.image,
                    )[t as int]);
                    assert(f[q] == cv.pictures[t as int].image);
                    assert(col.pictures.deep_view()[t as int] == cv.pictures[t as int]);
                    assert(f.take(q + 1).drop_last() =~= f.take(q));
                    assert(f.take(q + 1).last() == f[q]);
                    lemma_count_nonneg(f.take(q), hash);
                    lemma_count_zero(f, hash, q);
                }
                let is_match = col.pictures[t].image.hash == hash;
                let img = if is_match && !seen {
                    seen = true;
                    proof {
                        lemma_first_hash_at(f, hash, q);
                        assert(rep[q] == f[q]);
                    }
                    Image {
                        hash: col.pictures[t].image.hash,
                        update: col.pictures[t].image.update,
                        source_path: col.pictures[t].image.source_path.clone(),
                    }
                } else if is_match {
                    proof {
                        let j = choose|j: int| 0 <= j < q && f[j].hash == hash;
                        lemma_first_hash_le(f, hash, j);
                        assert(rep[q] == rewritten_image(wv));
                    }
                    Image { hash: with.hash, update: false, source_path: with.source_path.clone() }
                } else {
                    proof {
                        assert(rep[q] == f[q]);
                    }
                    Image {
                        hash: col.pictures[t].image.hash,
                        update: col.pictures[t].image.update,
                        source_path: col.pictures[t].image.source_path.clone(),
                    }
                };
                proof {
                    assert(img@ =~= rep[q]);
                }
                let pic = Picture { title: col.pictures[t].title.clone(), image: img };
                proof {
                    assert(pic@.image == rep[q] && pic@.title == cv.pictures[t as int].title);
                }
                let ghost prev_dv = pictures.deep_view();
                pictures.push(pic);
                proof {
                    assert(pictures.deep_view() =~= prev_dv.push(
                        PictureV { title: cv.pictures[t as int].title, image: rep[q] },
                    ));
                }
                t = t + 1;
            }

            let new_col = Collection {
                title: col.title,
                name: col.name,
                pictures,
                backgrounds,
            };
            self.collections.insert(ci, new_col);
            proof {
                let nc = self@.collections[ci as int];
                assert(self@.collections =~= pre_cols.update(ci as int, nc));
                assert(col_images(nc) =~= rep.subrange(off, off + col_images(cv).len()));
                assert(col_matches(cv, nc, rep, off));
                assert(flat_offset(cols0, ci + 1) == off + col_images(cv).len());
                assert(self@ =~~= with_collections(old(self)@, self@.collections));
            }
            ci = ci + 1;
        }

        proof {
            lemma_flat_skip(cols0, n as int);
            assert(rep.len() == flat_from(cols0, 0).len());
            lemma_flat_matches(cols0, self@.collections, rep, 0);
            assert(flat_from(self@.collections, 0) == rep.skip(0));
            assert(rep.skip(0) =~= rep);
            assert(same_shape(cols0, self@.collections));
            assert(final(self)@.wf()) by {
                assert(forall|i: int|
                    0 <= i < self@.collections.len() ==> (#[trigger] self@.collections[i]).name
                        == cols0[i].name);
            }
        }
    }
}

/// A rewrite pass keeps every image's identity.
proof fn lemma_partial_same_hashes(f: Seq<ImageV>, k: int)
    ensures
        partial_dedup(f, k).len() == f.len(),
        forall|t: int| 0 <= t < f.len() ==> (#[trigger] partial_dedup(f, k)[t]).hash == f[t].hash,
{
}

/// Examining a position whose identity group is already collapsed, or has
/// no other member, changes nothing.
proof fn lemma_partial_step_skip(f: Seq<ImageV>, k: int)
    requires
        0 <= k < f.len(),
        first_hash_index(f, f[k].hash) < k || (forall|t: int|
            0 <= t < f.len() && (#[trigger] f[t]).hash == f[k].hash ==> t == k),
    ensures
        partial_dedup(f, k + 1) == partial_dedup(f, k),
{
    assert forall|t: int| 0 <= t < f.len() implies partial_dedup(f, k + 1)[t] == partial_dedup(
        f,
        k,
    )[t] by {
        let fi = first_hash_index(f, f[t].hash);
        lemma_first_hash_le(f, f[t].hash, t);
        if fi == k {
            assert(f[k].hash == f[t].hash);
        }
    }
    assert(partial_dedup(f, k + 1) =~= partial_dedup(f, k));
}

/// Collapsing the group whose first member stands at `k` advances the
/// rewrite state by one position.
proof fn lemma_partial_step_replace(f: Seq<ImageV>, k: int, w: ImageV)
    requires
        0 <= k < f.len(),
        first_hash_index(f, f[k].hash) == k,
        w == f[k],
    ensures
        replaced_flat(partial_dedup(f, k), f[k].hash, w) == partial_dedup(f, k + 1),
{
    let g = partial_dedup(f, k);
    let h = f[k].hash;
    lemma_partial_same_hashes(f, k);
    lemma_first_same_hashes(g, f, h);
    assert forall|t: int| 0 <= t < f.len() implies replaced_flat(g, h, w)[t] == partial_dedup(
        f,
        k + 1,
    )[t] by {
        let fi = first_hash_index(f, f[t].hash);
        lemma_first_hash_le(f, f[t].hash, t);
        if f[t].hash != h && fi == k {
            assert(f[k].hash == f[t].hash);
        }
    }
    assert(replaced_flat(g, h, w) =~= partial_dedup(f, k + 1));
}

proof fn lemma_first_nonneg(s: Seq<ImageV>, h: u64)
    ensures
        first_hash_index(s, h) >= 0,
    decreases s.len(),
{
    if s.len() > 0 && s[0].hash != h {
        lemma_first_nonneg(s.drop_first(), h);
    }
}

/// Before anything is examined, nothing is rewritten.
proof fn lemma_partial_zero(f: Seq<ImageV>)
    ensures
        partial_dedup(f, 0) == f,
{
    assert forall|t: int| 0 <= t < f.len() implies partial_dedup(f, 0)[t] == f[t] by {
        lemma_first_nonneg(f, f[t].hash);
    }
    assert(partial_dedup(f, 0) =~= f);
}

/// Once every position is examined, every group is collapsed.
proof fn lemma_partial_full(f: Seq<ImageV>)
    ensures
        partial_dedup(f, f.len() as int) == deduped(f),
{
    assert forall|t: int| 0 <= t < f.len() implies partial_dedup(f, f.len() as int)[t]
        == deduped(f)[t] by {
        lemma_first_hash_le(f, f[t].hash, t);
    }
    assert(partial_dedup(f, f.len() as int) =~= deduped(f));
}

impl Gallery {
    /// Collapses duplicate sources across the whole gallery: for every
    /// content identity, the first image in iteration order keeps its
    /// fields; every other image with the same identity is rewritten to
    /// reference it and no longer needs rendering.
    pub fn remove_duplicates(&mut self)
        requires
            old(self)@.wf(),
        ensures
            final(self)@.wf(),
            final(self)@ == with_collections(old(self)@, final(self)@.collections),
            same_shape(old(self)@.collections, final(self)@.collections),
            flat_images(final(self)@) == deduped(flat_images(old(self)@)),
    {
        let ghost f = flat_images(old(self)@);
        let ghost cols0 = old(self)@.collections;

        // Capture every image in iteration order.
        let mut flat: Vec<Image> = Vec::new();
        let n = self.collections.len();
        let mut ci: usize = 0;
        while ci < n
            invariant
                self@ == old(self)@,
                cols0 == old(self)@.collections,
                n == cols0.len(),
                ci <= n,
                f == flat_from(cols0, 0),
                flat.deep_view() == f.take(flat_offset(cols0, ci as int)),
            decreases n - ci,
        {
            let ghost off = flat_offset(cols0, ci as int);
            let ghost cv = cols0[ci as int];
            proof {
                lemma_col_slice(cols0, ci as int);
                assert(self.collections.deep_view()[ci as int] == cv);
            }

            let mut t: usize = 0;
            while t < self.collections[ci].backgrounds.len()
                invariant
                    self@ == old(self)@,
                    cols0 == old(self)@.collections,
                    n == cols0.len(),
                    ci < n,
                    cv == cols0[ci as int],
                    off == flat_offset(cols0, ci as int),
                    f == flat_from(cols0, 0),
                    0 <= off,
                    off + col_images(cv).len() <= f.len(),
                    col_images(cv) == f.subrange(off, off + col_images(cv).len()),
                    t <= cv.backgrounds.len(),
                    flat.deep_view() == f.take(off + t),
                decreases cv.backgrounds.len() - t,
            {
                let ghost q = off + t;
                proof {
                    assert(self.collections.deep_view()[ci as int] == cv);
                    assert(self.collections@[ci as int]@.backgrounds[t as int]
                        == cv.backgrounds[t as int]);
                    assert(col_images(cv)[t as int] == cv.backgrounds[t as int]);
                    assert(f[q] == cv.backgrounds[t as int]);
                }
                let img = Image {
                    hash: self.collections[ci].backgrounds[t].hash,
                    update: self.collections[ci].backgrounds[t].update,
                    source_path: self.collections[ci].backgrounds[t].source_path.clone(),
                };
                let ghost prev_dv = flat.deep_view();
                flat.push(img);
                proof {
                    assert(f.take(q + 1) =~= f.take(q).push(f[q]));
                    assert(flat.deep_view() =~= prev_dv.push(f[q]));
                }
                t = t + 1;
            }

            let ghost lb = cv.backgrounds.len() as int;
            let mut t: usize = 0;
            while t < self.collections[ci].pictures.len()
                invariant
                    self@ == old(self)@,
                    cols0 == old(self)@.collections,
                    n == cols0.len(),
                    ci < n,
                    cv == cols0[ci as int],
                    off == flat_offset(cols0, ci as int),
                    lb == cv.backgrounds.len(),
                    f == flat_from(cols0, 0),
                    0 <= off,
                    off + col_images(cv).len() <= f.len(),
                    col_images(cv) == f.subrange(off, off + col_images(cv).len()),
                    t <= cv.pictures.len(),
                    flat.deep_view() == f.take(off + lb + t),
                decreases cv.pictures.len() - t,
            {
                let ghost q = off + lb + t;
                proof {
                    assert(self.collections.deep_view()[ci as int] == cv);
                    assert(self.collections@[ci as int]@.pictures[t as int]
                        == cv.pictures[t as int]);
                    assert(col_images(cv)[lb + t] == cv.pictures.map_values(
                        |p: PictureV| p.image,
                    )[t as int]);
                    assert(f[q] == cv.pictures[t as int].image);
                }
                let img = Image {
                    hash: self.collections[ci].pictures[t].image.hash,
                    update: self.collections[ci].pictures[t].image.update,
                    source_path: self.collections[ci].pictures[t].image.source_path.clone(),
                };
                let ghost prev_dv = flat.deep_view();
                flat.push(img);
                proof {
                    assert(f.take(q + 1) =~= f.take(q).push(f[q]));
                    assert(flat.deep_view() =~= prev_dv.push(f[q]));
                }
                t = t + 1;
            }

            proof {
                assert(flat_offset(cols0, ci + 1) == off + col_images(cv).len());
            }
            ci = ci + 1;
        }
        proof {
            lemma_flat_skip(cols0, n as int);
            assert(f.take(flat_offset(cols0, n as int)) =~= f);
        }

        // Collapse each identity group at its first member.
        let m = flat.len();
        let mut k: usize = 0;
        proof {
            lemma_partial_zero(f);
        }
        while k < m
            invariant
                m == f.len(),
                k <= m,
                flat.deep_view() == f,
                f == flat_images(old(self)@),
                self@.wf(),
                self@ == with_collections(old(self)@, self@.collections),
                same_shape(old(self)@.collections, self@.collections),
                flat_images(self@) == partial_dedup(f, k as int),
            decreases m - k,
        {
            proof {
                assert(flat.deep_view()[k as int] == f[k as int]);
            }
            let h = flat[k].hash;

            let mut dup_before = false;
            let mut j: usize = 0;
            while j < k
                invariant
                    j <= k < m,
                    m == f.len(),
                    flat.deep_view() == f,
                    h == f[k as int].hash,
                    dup_before <==> exists|x: int| 0 <= x < j && (#[trigger] f[x]).hash == h,
                decreases k - j,
            {
                proof {
                    assert(flat.deep_view()[j as int] == f[j as int]);
                }
                if flat[j].hash == h {
                    dup_before = true;
                }
                j = j + 1;
            }

            if !dup_before {
                let mut dup_after = false;
                let mut j: usize = k + 1;
                while j < m
                    invariant
                        k < j <= m || j == k + 1,
                        k < m,
                        m == f.len(),
                        flat.deep_view() == f,
                        h == f[k as int].hash,
                        dup_after <==> exists|x: int|
                            k < x < j && (#[trigger] f[x]).hash == h,
                    decreases m - j,
                {
                    proof {
                        assert(flat.deep_view()[j as int] == f[j as int]);
                    }
                    if flat[j].hash == h {
                        dup_after = true;
                    }
                    j = j + 1;
                }

                proof {
                    lemma_first_hash_at(f, h, k as int);
                }
                if dup_after {
                    let w = Image {
                        hash: flat[k].hash,
                        update: flat[k].update,
                        source_path: flat[k].source_path.clone(),
                    };
                    proof {
                        assert(w@ =~= f[k as int]);
                    }
                    self.replace_image(h, &w);
                    proof {
                        lemma_partial_step_replace(f, k as int, w@);
                        assert(flat_images(self@) == partial_dedup(f, k + 1));
                    }
                } else {
                    proof {
                        assert forall|t: int|
                            0 <= t < f.len() && (#[trigger] f[t]).hash == f[k as int].hash
                                implies t == k as int by {}
                        lemma_partial_step_skip(f, k as int);
                    }
                }
            } else {
                proof {
                    let x = choose|x: int| 0 <= x < k && (#[trigger] f[x]).hash == h;
                    lemma_first_hash_le(f, h, x);
                    lemma_partial_step_skip(f, k as int);
                }
            }
            k = k + 1;
        }
        proof {
            lemma_partial_full(f);
        }
    }
}

/// Whether some image carries identity `h`.
pub open spec fn has_hash(s: Seq<ImageV>, h: u64) -> bool {
    exists|k: int| 0 <= k < s.len() && s[k].hash == h
}

/// How many images carry identity `h` and still need rendering.
pub open spec fn count_schedulable(s: Seq<ImageV>, h: u64) -> int
    decreases s.len(),
{
    if s.len() == 0 {
        0
    } else {
        count_schedulable(s.drop_last(), h) + if s.last().hash == h && s.last().update {
            1int
        } else {
            0int
        }
    }
}

proof fn lemma_count_schedulable_deduped(f: Seq<ImageV>, h: u64, m: int)
    requires
        0 <= m <= f.len(),
        has_hash(f, h),
    ensures
        count_schedulable(deduped(f).take(m), h) == (if first_hash_index(f, h) < m && f[
            first_hash_index(f, h)
        ].update {
            1int
        } else {
            0int
        }),
    decreases m,
{
    let x = choose|x: int| 0 <= x < f.len() && f[x].hash == h;
    lemma_first_hash_le(f, h, x);
    if m == 0 {
    } else {
        lemma_count_schedulable_deduped(f, h, m - 1);
        let d = deduped(f);
        assert(d.take(m).drop_last() =~= d.take(m - 1));
        assert(d.take(m).last() == d[m - 1]);
        lemma_first_hash_le(f, f[m - 1].hash, m - 1);
    }
}

/// Collapsing duplicates leaves, for every identity that occurs, exactly
/// one schedulable image when its first occurrence still needed rendering,
/// and none otherwise; every other occurrence references the first's
/// source and needs no rendering.
pub proof fn lemma_dedup_one_schedulable(f: Seq<ImageV>, h: u64)
    requires
        has_hash(f, h),
    ensures
        count_schedulable(deduped(f), h) == (if f[first_hash_index(f, h)].update {
            1int
        } else {
            0int
        }),
        forall|k: int|
            0 <= k < f.len() && (#[trigger] f[k]).hash == h && k != first_hash_index(f, h)
                ==> deduped(f)[k] == (ImageV {
                hash: h,
                update: false,
                source_path: f[first_hash_index(f, h)].source_path,
            }),
{
    let x = choose|x: int| 0 <= x < f.len() && f[x].hash == h;
    lemma_first_hash_le(f, h, x);
    lemma_count_schedulable_deduped(f, h, f.len() as int);
    assert(deduped(f).take(f.len() as int) =~= deduped(f));
}

/// A request that names a brand-new key but no picture directory is
/// refused with an error naming its title, and leaves the gallery exactly
/// as it was: no collection is created.
pub proof fn lemma_fill_background_only_fails(g: GalleryV, c: CollectionInputV, use_titles: bool)
    requires
        !has_key(g.collection_keys, c.name),
        c.input_files is None,
    ensures
        spec_fill(g, seq![c], use_titles) == (
            g,
            Some("Cannot create new collection without input directory: "@ + c.title),
        ),
{
    assert(seq![c][0] == c);
    assert(seq![c].drop_first() =~= Seq::<CollectionInputV>::empty());
}

/// Filling an existing key appends: the collection keeps its title and its
/// entries, and the newly built entries follow them in listing order.
pub proof fn lemma_fill_appends(g: GalleryV, c: CollectionInputV, use_titles: bool)
    requires
        g.wf(),
        has_key(g.collection_keys, c.name),
    ensures
        ({
            let k = key_index(g.collection_keys, c.name);
            let pics = match c.input_files {
                Some(l) => l,
                None => Seq::empty(),
            };
            let bgs = match c.background_files {
                Some(l) => l,
                None => Seq::empty(),
            };
            let built = collection_new_spec(c.name, c.title, pics, bgs, use_titles);
            let (g2, err) = spec_fill(g, seq![c], use_titles);
            &&& err is None
            &&& g2.collection_keys == g.collection_keys
            &&& g2.collections.len() == g.collections.len()
            &&& g2.collections[k].title == g.collections[k].title
            &&& g2.collections[k].pictures == g.collections[k].pictures + built.pictures
            &&& g2.collections[k].backgrounds == g.collections[k].backgrounds + built.backgrounds
            &&& forall|j: int|
                0 <= j < g.collections.len() && j != k ==> g2.collections[j] == g.collections[j]
        }),
{
    lemma_key_index_in_range(g.collection_keys, c.name);
    assert(seq![c][0] == c);
    assert(seq![c].drop_first() =~= Seq::<CollectionInputV>::empty());
    let r1 = fill_one(g, c, use_titles);
    assert(r1 is Ok);
    let g1 = match r1 {
        Ok(x) => x,
        Err(_) => g,
    };
    assert(spec_fill(g1, Seq::<CollectionInputV>::empty(), use_titles) == (
        g1,
        None::<Seq<char>>,
    ));
    assert(spec_fill(g, seq![c], use_titles) == (g1, None::<Seq<char>>));
    let k = key_index(g.collection_keys, c.name);
    assert(g1.collections[k] == fill_one_merged(g, c, use_titles));
}

/// The merged collection that filling an existing key produces.
pub open spec fn fill_one_merged(g: GalleryV, c: CollectionInputV, use_titles: bool) -> CollectionV {
    let pics = match c.input_files {
        Some(l) => l,
        None => Seq::empty(),
    };
    let bgs = match c.background_files {
        Some(l) => l,
        None => Seq::empty(),
    };
    let col = collection_new_spec(c.name, c.title, pics, bgs, use_titles);
    let k = key_index(g.collection_keys, c.name);
    CollectionV {
        title: g.collections[k].title,
        name: g.collections[k].name,
        pictures: g.collections[k].pictures + col.pictures,
        backgrounds: g.collections[k].backgrounds + col.backgrounds,
    }
}

/// The manifest entry of one picture: its title and its identity.
pub open spec fn picture_json(p: PictureV) -> JsonDataV {
    obj_node(
        seq![
            ("title"@, str_node(p.title)),
            ("path"@, num_node(dec_str(p.image.hash as int))),
        ],
    )
}

/// The manifest entry of one background: its identity.
pub open spec fn background_json(b: ImageV) -> JsonDataV {
    obj_node(seq![("path"@, num_node(dec_str(b.hash as int)))])
}

/// The manifest entry of one collection.
pub open spec fn collection_json(c: CollectionV) -> JsonDataV {
    obj_node(
        seq![
            ("title"@, str_node(c.title)),
            ("name"@, str_node(c.name)),
            ("pictures"@, arr_node(c.pictures.map_values(|p: PictureV| picture_json(p)))),
            (
                "backgrounds"@,
                arr_node(c.backgrounds.map_values(|b: ImageV| background_json(b))),
            ),
        ],
    )
}

/// The manifest entry of a resolution.
pub open spec fn resolution_json(r: Resolution) -> JsonDataV {
    obj_node(
        seq![
            ("width"@, num_node(dec_str(r.width as int))),
            ("height"@, num_node(dec_str(r.height as int))),
        ],
    )
}

/// The whole manifest: version, extension, archive registry, keys in
/// order, one entry per collection under its key, and the three output
/// resolutions.
pub open spec fn gallery_json_tree(g: GalleryV) -> JsonDataV {
    obj_node(
        seq![
            ("version"@, num_node(dec_str(g.version as int))),
            ("extension"@, str_node(g.extension)),
            (
                "archives"@,
                obj_node(g.archives.map_values(|a: (Seq<char>, Seq<char>)| (a.0, str_node(a.1)))),
            ),
            (
                "collection_keys"@,
                arr_node(g.collection_keys.map_values(|k: Seq<char>| str_node(k))),
            ),
            (
                "collections"@,
                obj_node(
                    Seq::new(
                        g.collection_keys.len(),
                        |i: int| (g.collection_keys[i], collection_json(g.collections[i])),
                    ),
                ),
            ),
            ("res_background"@, resolution_json(g.res_background)),
            ("res_display"@, resolution_json(g.res_display)),
            ("res_thumb"@, resolution_json(g.res_thumb)),
        ],
    )
}

/// Builds the manifest entry of a resolution.
fn resolution_json_node(r: Resolution) -> (d: JsonData)
    ensures
        d@ == resolution_json(r),
{
    let mut props: Vec<(String, JsonData)> = Vec::new();
    props.push((String::from_str("width"), number_value(u64_to_string(r.width as u64))));
    props.push((String::from_str("height"), number_value(u64_to_string(r.height as u64))));
    let d = JsonData {
        t: JsonType::Object,
        object_properties: props,
        array_values: Vec::new(),
        str_value: String::new(),
    };
    proof {
        lemma_props_view_full(d.object_properties@);
        assert(props_view(d.object_properties@) =~= resolution_json(r).props);
        assert(d@ =~~= resolution_json(r));
    }
    d
}

/// Builds the manifest entry of one collection.
fn collection_json_node(c: &Collection) -> (d: JsonData)
    ensures
        d@ == collection_json(c@),
{
    let ghost cv = c@;

    let mut pics: Vec<JsonData> = Vec::new();
    let mut i: usize = 0;
    while i < c.pictures.len()
        invariant
            cv == c@,
            i <= cv.pictures.len(),
            arr_view(pics@) =~= cv.pictures.take(i as int).map_values(
                |p: PictureV| picture_json(p),
            ),
        decreases cv.pictures.len() - i,
    {
        proof {
            assert(c.pictures.deep_view()[i as int] == cv.pictures[i as int]);
        }
        let mut props: Vec<(String, JsonData)> = Vec::new();
        props.push((String::from_str("title"), string_value(c.pictures[i].title.clone())));
        props.push(
            (String::from_str("path"), number_value(u64_to_string(c.pictures[i].image.hash))),
        );
        let node = JsonData {
            t: JsonType::Object,
            object_properties: props,
            array_values: Vec::new(),
            str_value: String::new(),
        };
        let ghost prev = pics@;
        pics.push(node);
        proof {
            lemma_props_view_full(node.object_properties@);
            assert(node@.props =~= picture_json(cv.pictures[i as int]).props);
            assert(node@ =~~= picture_json(cv.pictures[i as int]));
            assert(prev.push(node).drop_last() =~= prev);
            assert(arr_view(pics@) =~= arr_view(prev).push(node@));
            assert(cv.pictures.take(i + 1).map_values(|p: PictureV| picture_json(p))
                =~= cv.pictures.take(i as int).map_values(|p: PictureV| picture_json(p)).push(
                picture_json(cv.pictures[i as int]),
            ));
        }
        i = i + 1;
    }
    proof {
        assert(cv.pictures.take(cv.pictures.len() as int) =~= cv.pictures);
    }

    let mut bgs: Vec<JsonData> = Vec::new();
    let mut i: usize = 0;
    while i < c.backgrounds.len()
        invariant
            cv == c@,
            i <= cv.backgrounds.len(),
            arr_view(bgs@) =~= cv.backgrounds.take(i as int).map_values(
                |b: ImageV| background_json(b),
            ),
        decreases cv.backgrounds.len() - i,
    {
        proof {
            assert(c.backgrounds.deep_view()[i as int] == cv.backgrounds[i as int]);
        }
        let mut props: Vec<(String, JsonData)> = Vec::new();
        props.push(
            (String::from_str("path"), number_value(u64_to_string(c.backgrounds[i].hash))),
        );
        let node = JsonData {
            t: JsonType::Object,
            object_properties: props,
            array_values: Vec::new(),
            str_value: String::new(),
        };
        let ghost prev = bgs@;
        bgs.push(node);
        proof {
            lemma_props_view_full(node.object_properties@);
            assert(node@.props =~= background_json(cv.backgrounds[i as int]).props);
            assert(node@ =~~= background_json(cv.backgrounds[i as int]));
            assert(prev.push(node).drop_last() =~= prev);
            assert(arr_view(bgs@) =~= arr_view(prev).push(node@));
            assert(cv.backgrounds.take(i + 1).map_values(|b: ImageV| background_json(b))
                =~= cv.backgrounds.take(i as int).map_values(|b: ImageV| background_json(b)).push(
                background_json(cv.backgrounds[i as int]),
            ));
        }
        i = i + 1;
    }
    proof {
        assert(cv.backgrounds.take(cv.backgrounds.len() as int) =~= cv.backgrounds);
    }

    let mut props: Vec<(String, JsonData)> = Vec::new();
    props.push((String::from_str("title"), string_value(c.title.clone())));
    props.push((String::from_str("name"), string_value(c.name.clone())));
    props.push(
        (
            String::from_str("pictures"),
            JsonData {
                t: JsonType::Array,
                object_properties: Vec::new(),
                array_values: pics,
                str_value: String::new(),
            },
        ),
    );
    props.push(
        (
            String::from_str("backgrounds"),
            JsonData {
                t: JsonType::Array,
                object_properties: Vec::new(),
                array_values: bgs,
                str_value: String::new(),
            },
        ),
    );
    let d = JsonData {
        t: JsonType::Object,
        object_properties: props,
        array_values: Vec::new(),
        str_value: String::new(),
    };
    proof {
        lemma_props_view_full(d.object_properties@);
        assert(props_view(d.object_properties@) =~~= collection_json(cv).props);
        assert(d@ =~~= collection_json(cv));
    }
    d
}

impl Gallery {
    /// Serialises the gallery into its manifest text: a JSON object with
    /// version, extension, archive registry, the keys in order, one
    /// collection entry per key, and the output resolutions.
    #[verifier::rlimit(60)]
    pub fn json(&self) -> (r: String)
        requires
            self@.wf(),
        ensures
            r@ == spec_stringify(gallery_json_tree(self@)),
    {
        let ghost gv = self@;

        let mut aprops: Vec<(String, JsonData)> = Vec::new();
        let mut i: usize = 0;
        while i < self.archives.len()
            invariant
                gv == self@,
                i <= gv.archives.len(),
                gv.archives.len() == self.archives@.len(),
                props_view(aprops@) =~= gv.archives.take(i as int).map_values(
                    |a: (Seq<char>, Seq<char>)| (a.0, str_node(a.1)),
                ),
            decreases gv.archives.len() - i,
        {
            proof {
                assert(gv.archives[i as int] == (
                    self.archives@[i as int].0@,
                    self.archives@[i as int].1@,
                ));
            }
            let ghost prev = aprops@;
            aprops.push((self.archives[i].0.clone(), string_value(self.archives[i].1.clone())));
            proof {
                assert(prev.push(aprops@.last()).drop_last() =~= prev);
                assert(props_view(aprops@) =~= props_view(prev).push(
                    (gv.archives[i as int].0, str_node(gv.archives[i as int].1)),
                ));
                assert(gv.archives.take(i + 1).map_values(
                    |a: (Seq<char>, Seq<char>)| (a.0, str_node(a.1)),
                ) =~= gv.archives.take(i as int).map_values(
                    |a: (Seq<char>, Seq<char>)| (a.0, str_node(a.1)),
                ).push((gv.archives[i as int].0, str_node(gv.archives[i as int].1))));
            }
            i = i + 1;
        }
        proof {
            assert(gv.archives.take(gv.archives.len() as int) =~= gv.archives);
        }

        let mut keys: Vec<JsonData> = Vec::new();
        let mut i: usize = 0;
        while i < self.collection_keys.len()
            invariant
                gv == self@,
                i <= gv.collection_keys.len(),
                gv.collection_keys.len() == self.collection_keys@.len(),
                arr_view(keys@) =~= gv.collection_keys.take(i as int).map_values(
                    |k: Seq<char>| str_node(k),
                ),
            decreases gv.collection_keys.len() - i,
        {
            proof {
                assert(gv.collection_keys[i as int] == self.collection_keys@[i as int]@);
            }
            let ghost prev = keys@;
            keys.push(string_value(self.collection_keys[i].clone()));
            proof {
                assert(prev.push(keys@.last()).drop_last() =~= prev);
                assert(arr_view(keys@) =~= arr_view(prev).push(
                    str_node(gv.collection_keys[i as int]),
                ));
                assert(gv.collection_keys.take(i + 1).map_values(|k: Seq<char>| str_node(k))
                    =~= gv.collection_keys.take(i as int).map_values(
                    |k: Seq<char>| str_node(k),
                ).push(str_node(gv.collection_keys[i as int])));
            }
            i = i + 1;
        }
        proof {
            assert(gv.collection_keys.take(gv.collection_keys.len() as int)
                =~= gv.collection_keys);
        }

        let mut cprops: Vec<(String, JsonData)> = Vec::new();
        let mut i: usize = 0;
        while i < self.collection_keys.len()
            invariant
                gv == self@,
                gv.wf(),
                i <= gv.collection_keys.len(),
                gv.collection_keys.len() == self.collection_keys@.len(),
                gv.collections.len() == self.collections@.len(),
                props_view(cprops@) =~= Seq::new(
                    i as nat,
                    |j: int| (gv.collection_keys[j], collection_json(gv.collections[j])),
                ),
            decreases gv.collection_keys.len() - i,
        {
            proof {
                assert(gv.collection_keys[i as int] == self.collection_keys@[i as int]@);
                assert(gv.collections[i as int] == self.collections@[i as int]@);
            }
            let node = collection_json_node(&self.collections[i]);
            let ghost prev = cprops@;
            cprops.push((self.collection_keys[i].clone(), node));
            proof {
                assert(prev.push(cprops@.last()).drop_last() =~= prev);
                assert(props_view(cprops@) =~= props_view(prev).push(
                    (gv.collection_keys[i as int], collection_json(gv.collections[i as int])),
                ));
                assert(Seq::new(
                    (i + 1) as nat,
                    |j: int| (gv.collection_keys[j], collection_json(gv.collections[j])),
                ) =~= Seq::new(
                    i as nat,
                    |j: int| (gv.collection_keys[j], collection_json(gv.collections[j])),
                ).push((gv.collection_keys[i as int], collection_json(gv.collections[i as int]))));
            }
            i = i + 1;
        }

        let mut props: Vec<(String, JsonData)> = Vec::new();
        props.push((String::from_str("version"), number_value(u64_to_string(self.version as u64))));
        props.push((String::from_str("extension"), string_value(self.extension.clone())));
        props.push(
            (
                String::from_str("archives"),
                JsonData {
                    t: JsonType::Object,
                    object_properties: aprops,
                    array_values: Vec::new(),
                    str_value: String::new(),
                },
            ),
        );
        props.push(
            (
                String::from_str("collection_keys"),
                JsonData {
                    t: JsonType::Array,
                    object_properties: Vec::new(),
                    array_values: keys,
                    str_value: String::new(),
                },
            ),
        );
        props.push(
            (
                String::from_str("collections"),
                JsonData {
                    t: JsonType::Object,
                    object_properties: cprops,
                    array_values: Vec::new(),
                    str_value: String::new(),
                },
            ),
        );
        props.push((String::from_str("res_background"), resolution_json_node(self.res_background)));
        props.push((String::from_str("res_display"), resolution_json_node(self.res_display)));
        props.push((String::from_str("res_thumb"), resolution_json_node(self.res_thumb)));

        let root = JsonData {
            t: JsonType::Object,
            object_properties: props,
            array_values: Vec::new(),
            str_value: String::new(),
        };
        proof {
            lemma_props_view_full(root.object_properties@);
            assert(props_view(root.object_properties@) =~~= gallery_json_tree(gv).props);
            assert(root@ =~~= gallery_json_tree(gv));
        }
        root.stringify()
    }
}

/// The position of an archive name in the registry; the length when
/// absent.
pub open spec fn archive_index(archives: Seq<(Seq<char>, Seq<char>)>, name: Seq<char>) -> int
    decreases archives.len(),
{
    if archives.len() == 0 {
        0
    } else if archives[0].0 == name {
        0
    } else {
        1 + archive_index(archives.drop_first(), name)
    }
}

proof fn lemma_archive_index_at(archives: Seq<(Seq<char>, Seq<char>)>, name: Seq<char>, i: int)
    requires
        0 <= i < archives.len(),
        archives[i].0 == name,
        forall|j: int| 0 <= j < i ==> archives[j].0 != name,
    ensures
        archive_index(archives, name) == i,
    decreases i,
{
    if i > 0 {
        lemma_archive_index_at(archives.drop_first(), name, i - 1);
    }
}

proof fn lemma_archive_index_absent(archives: Seq<(Seq<char>, Seq<char>)>, name: Seq<char>)
    requires
        forall|j: int| 0 <= j < archives.len() ==> archives[j].0 != name,
    ensures
        archive_index(archives, name) == archives.len(),
    decreases archives.len(),
{
    if archives.len() > 0 {
        lemma_archive_index_absent(archives.drop_first(), name);
    }
}

impl Gallery {
    /// Registers an archive under a name: an existing entry with that name
    /// is overwritten, a new name is appended.
    pub fn register_archive(&mut self, name: String, path: String)
        ensures
            final(self)@ == (GalleryV {
                archives: (if archive_index(old(self)@.archives, name@) < old(
                    self,
                )@.archives.len() {
                    old(self)@.archives.update(
                        archive_index(old(self)@.archives, name@),
                        (name@, path@),
                    )
                } else {
                    old(self)@.archives.push((name@, path@))
                }),
                ..old(self)@
            }),
            old(self)@.wf() ==> final(self)@.wf(),
    {
        let ghost av = old(self)@.archives;
        let mut i: usize = 0;
        while i < self.archives.len()
            invariant
                av == archives_view(self.archives@),
                self@ == old(self)@,
                i <= av.len(),
                forall|j: int| 0 <= j < i ==> (#[trigger] av[j]).0 != name@,
            decreases av.len() - i,
        {
            proof {
                assert(av[i as int] == (self.archives@[i as int].0@, self.archives@[i as int].1@));
            }
            if self.archives[i].0 == name {
                proof {
                    lemma_archive_index_at(av, name@, i as int);
                }
                self.archives.remove(i);
                self.archives.insert(i, (name, path));
                proof {
                    assert(archives_view(self.archives@) =~= av.update(i as int, (name@, path@)));
                    assert(self@ =~~= (GalleryV {
                        archives: av.update(i as int, (name@, path@)),
                        ..old(self)@
                    }));
                }
                return ;
            }
            i = i + 1;
        }
        proof {
            lemma_archive_index_absent(av, name@);
        }
        self.archives.push((name, path));
        proof {
            assert(archives_view(self.archives@) =~= av.push((name@, path@)));
            assert(self@ =~~= (GalleryV { archives: av.push((name@, path@)), ..old(self)@ }));
        }
    }
}

/// Copies a file list.
fn clone_files(files: &Vec<crate::mi::fs::SourceFile>) -> (r: Vec<crate::mi::fs::SourceFile>)
    ensures
        r.deep_view() == files.deep_view(),
{
    let mut r: Vec<crate::mi::fs::SourceFile> = Vec::new();
    let mut i: usize = 0;
    while i < files.len()
        invariant
            i <= files@.len(),
            r.deep_view() =~= files.deep_view().take(i as int),
        decreases files@.len() - i,
    {
        let mut data: Vec<u8> = Vec::new();
        let mut j: usize = 0;
        while j < files[i].data.len()
            invariant
                i < files@.len(),
                j <= files@[i as int].data@.len(),
                data@ == files@[i as int].data@.take(j as int),
            decreases files@[i as int].data@.len() - j,
        {
            data.push(files[i].data[j]);
            proof {
                assert(files@[i as int].data@.take(j + 1) =~= files@[i as int].data@.take(
                    j as int,
                ).push(files@[i as int].data@[j as int]));
            }
            j = j + 1;
        }
        proof {
            assert(files@[i as int].data@.take(files@[i as int].data@.len() as int) =~= files@[
                i as int
            ].data@);
        }
        r.push(crate::mi::fs::SourceFile { path: files[i].path.clone(), data });
        proof {
            assert(files.deep_view().take(i + 1) =~= files.deep_view().take(i as int).push(
                files.deep_view()[i as int],
            ));
            assert(r.deep_view() =~= files.deep_view().take(i + 1));
        }
        i = i + 1;
    }
    proof {
        assert(files.deep_view().take(files.deep_view().len() as int) =~= files.deep_view());
    }
    r
}

/// The gallery a configuration starts from: empty, with the configured
/// output resolutions.
pub open spec fn base_gallery(c: ConfigurationV) -> GalleryV {
    GalleryV {
        res_thumb: c.tumb_size,
        res_display: c.display_size,
        res_background: c.background_size,
        ..empty_gallery()
    }
}

/// The requested collections a configuration stands for: one per picture
/// directory, titled in order, keyed by the sanitized title, with the
/// background listings reused in rotation (or one empty listing when none
/// was given).
pub open spec fn config_inputs(c: ConfigurationV) -> Seq<CollectionInputV> {
    let bgs = if c.background_dirs.len() == 0 {
        seq![Seq::<crate::mi::fs::FileV>::empty()]
    } else {
        c.background_dirs
    };
    Seq::new(
        c.input_dirs.len(),
        |i: int|
            CollectionInputV {
                title: c.collection_titles[i],
                name: crate::mi::fs::sanitized(c.collection_titles[i]),
                input_files: Some(c.input_dirs[i]),
                background_files: Some(bgs[i % bgs.len() as int]),
            },
    )
}

/// A fill whose every request names a picture directory never fails.
proof fn lemma_fill_all_inputs_ok(g: GalleryV, inputs: Seq<CollectionInputV>, use_titles: bool)
    requires
        forall|i: int| 0 <= i < inputs.len() ==> (#[trigger] inputs[i]).input_files is Some,
    ensures
        spec_fill(g, inputs, use_titles).1 is None,
    decreases inputs.len(),
{
    if inputs.len() > 0 {
        assert(inputs[0].input_files is Some);
        match fill_one(g, inputs[0], use_titles) {
            Ok(g2) => {
                assert(forall|i: int|
                    0 <= i < inputs.drop_first().len() ==> (#[trigger] inputs.drop_first()[
                        i
                    ]).input_files is Some);
                lemma_fill_all_inputs_ok(g2, inputs.drop_first(), use_titles);
            },
            Err(_) => {
                assert(false);
            },
        }
    }
}

impl Gallery {
    /// Builds a gallery from a configuration: an empty gallery with the
    /// configured resolutions, filled with one collection per picture
    /// directory, backgrounds reused in rotation.
    pub fn from(config: &Configuration) -> (r: Result<Gallery, String>)
        requires
            config@.collection_titles.len() >= config@.input_dirs.len(),
        ensures
            r matches Ok(g) && g@ == spec_fill(
                base_gallery(config@),
                config_inputs(config@),
                config@.image_name_titles,
            ).0 && g@.wf(),
    {
        let ghost cv = config@;

        let mut backgrounds: Vec<Vec<crate::mi::fs::SourceFile>> = Vec::new();
        if config.background_dirs.len() == 0 {
            backgrounds.push(Vec::new());
            proof {
                assert(backgrounds.deep_view() =~~= seq![Seq::<crate::mi::fs::FileV>::empty()]);
            }
        } else {
            let mut i: usize = 0;
            while i < config.background_dirs.len()
                invariant
                    cv == config@,
                    i <= cv.background_dirs.len(),
                    backgrounds.deep_view() =~= cv.background_dirs.take(i as int),
                decreases cv.background_dirs.len() - i,
            {
                let files = clone_files(&config.background_dirs[i]);
                let ghost fl = files.deep_view();
                let ghost prev = backgrounds.deep_view();
                backgrounds.push(files);
                proof {
                    assert(config.background_dirs.deep_view()[i as int] == cv.background_dirs[
                        i as int
                    ]);
                    assert(backgrounds.deep_view() =~= prev.push(fl));
                    assert(cv.background_dirs.take(i + 1) =~= cv.background_dirs.take(
                        i as int,
                    ).push(cv.background_dirs[i as int]));
                    assert(backgrounds.deep_view() =~~= cv.background_dirs.take(i + 1));
                }
                i = i + 1;
            }
            proof {
                assert(cv.background_dirs.take(cv.background_dirs.len() as int)
                    =~= cv.background_dirs);
            }
        }
        let ghost bgs = backgrounds.deep_view();

        let mut inputs: Vec<CollectionInput> = Vec::new();
        let mut i: usize = 0;
        while i < config.input_dirs.len()
            invariant
                cv == config@,
                cv.collection_titles.len() >= cv.input_dirs.len(),
                bgs == backgrounds.deep_view(),
                bgs.len() > 0,
                bgs == (if cv.background_dirs.len() == 0 {
                    seq![Seq::<crate::mi::fs::FileV>::empty()]
                } else {
                    cv.background_dirs
                }),
                i <= cv.input_dirs.len(),
                inputs.deep_view() =~= config_inputs(cv).take(i as int),
            decreases cv.input_dirs.len() - i,
        {
            let title = title_at(&config.collection_titles, i);
            let name = crate::mi::fs::sanitize(title.as_str());
            let input_files = clone_files(&config.input_dirs[i]);
            let background_files = clone_files(&backgrounds[i % backgrounds.len()]);
            proof {
                assert(config.input_dirs.deep_view()[i as int] == cv.input_dirs[i as int]);
                assert(backgrounds.deep_view()[(i % backgrounds.len()) as int] == bgs[(i
                    % backgrounds.len()) as int]);
                assert((i % backgrounds.len()) as int == (i as int) % (bgs.len() as int));
                assert(config.collection_titles.deep_view()[i as int] == cv.collection_titles[
                    i as int
                ]);
            }
            inputs.push(
                CollectionInput {
                    title,
                    name,
                    input_files: Some(input_files),
                    background_files: Some(background_files),
                },
            );
            proof {
                assert(inputs.deep_view().last() =~~= config_inputs(cv)[i as int]);
                assert(config_inputs(cv).take(i + 1) =~= config_inputs(cv).take(i as int).push(
                    config_inputs(cv)[i as int],
                ));
                assert(inputs.deep_view() =~= config_inputs(cv).take(i + 1));
            }
            i = i + 1;
        }
        proof {
            assert(config_inputs(cv).take(config_inputs(cv).len() as int) =~= config_inputs(cv));
        }

        let mut gallery = Gallery::new();
        gallery.res_thumb = config.tumb_size;
        gallery.res_display = config.display_size;
        gallery.res_background = config.background_size;
        proof {
            assert(gallery@ =~~= base_gallery(cv));
            lemma_fill_all_inputs_ok(base_gallery(cv), config_inputs(cv), cv.image_name_titles);
        }
        match gallery.fill(inputs, config.image_name_titles) {
            Ok(()) => Ok(gallery),
            Err(m) => {
                proof {
                    assert(false);
                }
                Err(m)
            },
        }
    }
}

/// Reads one title out of the list.
fn title_at(titles: &Vec<String>, i: usize) -> (r: String)
    requires
        i < titles@.len(),
    ensures
        r@ == titles.deep_view()[i as int],
{
    titles[i].clone()
}

impl Default for Gallery {
    /// Same as [`Gallery::new`].
    fn default() -> (g: Gallery)
        ensures
            g@ == empty_gallery(),
            g@.wf(),
    {
        Gallery::new()
    }
}

} // verus!

//! Render planning: which artifact jobs still have to run.
//!
//! A picture that needs rendering owes three independent artifacts — a
//! thumbnail, a display rendition and a full-resolution recode — and a
//! background owes one.  A job whose target file already exists is never
//! planned, so re-running against a finished output plans nothing.  The
//! caller runs the planned jobs in any order and reports the failed ones
//! back through [`Gallery::remove_failures`].

use vstd::prelude::*;
use crate::mi::fs::dec_str;
use crate::mi::fs::u64_to_string;
use crate::gallery::picture::{ImageV, PictureV};
use crate::gallery::collection::{
    Collection, CollectionV, pictures_without, images_without,
};
use crate::gallery::gallery::{Gallery, GalleryV, key_index, has_key, lemma_key_index_in_range};
use vstd::string::StringExecFns;

verus! {

/// The four artifact kinds a source image can owe.
#[derive(Debug, Copy, Clone, PartialEq, Eq, Structural)]
pub enum JobKind {
    Thumb,
    Display,
    Full,
    Background,
}

/// One pending render job: which artifact of which image, where the source
/// bytes are, and the artifact's file name inside the pictures directory.
#[derive(Debug)]
pub struct RenderJob {
    pub collection_name: String,
    pub hash: u64,
    pub source_path: String,
    pub target: String,
    pub kind: JobKind,
}

/// The mathematical value of a [`RenderJob`].
#[verifier::ext_equal]
pub ghost struct RenderJobV {
    pub collection_name: Seq<char>,
    pub hash: u64,
    pub source_path: Seq<char>,
    pub target: Seq<char>,
    pub kind: JobKind,
}

impl View for RenderJob {
    type V = RenderJobV;

    open spec fn view(&self) -> RenderJobV {
        RenderJobV {
            collection_name: self.collection_name@,
            hash: self.hash,
            source_path: self.source_path@,
            target: self.target@,
            kind: self.kind,
        }
    }
}

impl DeepView for RenderJob {
    type V = RenderJobV;

    open spec fn deep_view(&self) -> RenderJobV {
        self.view()
    }
}

/// The artifact file name for an identity and kind: the identity in
/// decimal, then the kind's suffix.
pub open spec fn target_name(hash: u64, kind: JobKind) -> Seq<char> {
    dec_str(hash as int) + (match kind {
        JobKind::Thumb => ".thumb.jpg"@,
        JobKind::Display => ".disp.jpg"@,
        JobKind::Full => ".jpg"@,
        JobKind::Background => ".bg.jpg"@,
    })
}

/// The job that produces one artifact of one image.
pub open spec fn job_of(cname: Seq<char>, img: ImageV, kind: JobKind) -> RenderJobV {
    RenderJobV {
        collection_name: cname,
        hash: img.hash,
        source_path: img.source_path,
        target: target_name(img.hash, kind),
        kind,
    }
}

/// Whether `s` is one of the listed names.
pub open spec fn contains_str(l: Seq<Seq<char>>, s: Seq<char>) -> bool {
    exists|i: int| 0 <= i < l.len() && l[i] == s
}

/// The job for one artifact, unless its target already exists.
pub open spec fn kind_jobs(
    cname: Seq<char>,
    img: ImageV,
    kind: JobKind,
    existing: Seq<Seq<char>>,
) -> Seq<RenderJobV> {
    if contains_str(existing, target_name(img.hash, kind)) {
        Seq::empty()
    } else {
        seq![job_of(cname, img, kind)]
    }
}

/// The jobs one picture owes: nothing unless it needs rendering, else its
/// thumbnail, display and full recode, each skipped when already on disk.
pub open spec fn picture_jobs(cname: Seq<char>, img: ImageV, existing: Seq<Seq<char>>) -> Seq<
    RenderJobV,
> {
    if !img.update {
        Seq::empty()
    } else {
        kind_jobs(cname, img, JobKind::Thumb, existing) + kind_jobs(
            cname,
            img,
            JobKind::Display,
            existing,
        ) + kind_jobs(cname, img, JobKind::Full, existing)
    }
}

/// The job one background owes, if any.
pub open spec fn background_jobs(cname: Seq<char>, img: ImageV, existing: Seq<Seq<char>>) -> Seq<
    RenderJobV,
> {
    if !img.update {
        Seq::empty()
    } else {
        kind_jobs(cname, img, JobKind::Background, existing)
    }
}

/// The jobs of a list of pictures, in order.
pub open spec fn pictures_jobs(cname: Seq<char>, pics: Seq<PictureV>, existing: Seq<Seq<char>>)
    -> Seq<RenderJobV>
    decreases pics.len(),
{
    if pics.len() == 0 {
        Seq::empty()
    } else {
        pictures_jobs(cname, pics.drop_last(), existing) + picture_jobs(
            cname,
            pics.last().image,
            existing,
        )
    }
}

/// The jobs of a list of backgrounds, in order.
pub open spec fn backgrounds_jobs(cname: Seq<char>, bgs: Seq<ImageV>, existing: Seq<Seq<char>>)
    -> Seq<RenderJobV>
    decreases bgs.len(),
{
    if bgs.len() == 0 {
        Seq::empty()
    } else {
        backgrounds_jobs(cname, bgs.drop_last(), existing) + background_jobs(
            cname,
            bgs.last(),
            existing,
        )
    }
}

/// The jobs a collection owes: its pictures' first, then its backgrounds'.
pub open spec fn collection_jobs(c: CollectionV, existing: Seq<Seq<char>>) -> Seq<RenderJobV> {
    pictures_jobs(c.name, c.pictures, existing) + backgrounds_jobs(c.name, c.backgrounds, existing)
}

/// The jobs of the whole gallery, collections in key order.
pub open spec fn gallery_jobs(cols: Seq<CollectionV>, existing: Seq<Seq<char>>) -> Seq<RenderJobV>
    decreases cols.len(),
{
    if cols.len() == 0 {
        Seq::empty()
    } else {
        gallery_jobs(cols.drop_last(), existing) + collection_jobs(cols.last(), existing)
    }
}

/// Builds the artifact file name for an identity and kind.
pub fn target_file_name(hash: u64, kind: JobKind) -> (r: String)
    ensures
        r@ == target_name(hash, kind),
{
    let stem = u64_to_string(hash);
    match kind {
        JobKind::Thumb => stem.concat(".thumb.jpg"),
        JobKind::Display => stem.concat(".disp.jpg"),
        JobKind::Full => stem.concat(".jpg"),
        JobKind::Background => stem.concat(".bg.jpg"),
    }
}

/// Whether `name` stands in the list of existing file names.
fn list_contains(existing: &Vec<String>, name: &String) -> (r: bool)
    ensures
        r == contains_str(existing.deep_view(), name@),
{
    let mut i: usize = 0;
    while i < existing.len()
        invariant
            i <= existing@.len(),
            forall|j: int| 0 <= j < i ==> existing.deep_view()[j] != name@,
        decreases existing@.len() - i,
    {
        proof {
            assert(existing.deep_view()[i as int] == existing@[i as int]@);
        }
        if existing[i] == *name {
            return true;
        }
        i = i + 1;
    }
    false
}

/// Plans the jobs for one image of a collection.
fn push_image_jobs(
    jobs: &mut Vec<RenderJob>,
    cname: &String,
    hash: u64,
    source_path: &String,
    kinds_background: bool,
    existing: &Vec<String>,
)
    ensures
        ({
            let img = ImageV { hash, update: true, source_path: source_path@ };
            final(jobs).deep_view() == old(jobs).deep_view() + (if kinds_background {
                background_jobs(cname@, img, existing.deep_view())
            } else {
                picture_jobs(cname@, img, existing.deep_view())
            })
        }),
{
    let ghost img = ImageV { hash, update: true, source_path: source_path@ };
    let ghost ex = existing.deep_view();
    let ghost before = jobs.deep_view();
    if kinds_background {
        let target = target_file_name(hash, JobKind::Background);
        if !list_contains(existing, &target) {
            jobs.push(
                RenderJob {
                    collection_name: cname.clone(),
                    hash,
                    source_path: source_path.clone(),
                    target,
                    kind: JobKind::Background,
                },
            );
        }
        proof {
            assert(jobs.deep_view() =~= before + background_jobs(cname@, img, ex));
        }
    } else {
        let target = target_file_name(hash, JobKind::Thumb);
        if !list_contains(existing, &target) {
            jobs.push(
                RenderJob {
                    collection_name: cname.clone(),
                    hash,
                    source_path: source_path.clone(),
                    target,
                    kind: JobKind::Thumb,
                },
            );
        }
        let target = target_file_name(hash, JobKind::Display);
        if !list_contains(existing, &target) {
            jobs.push(
                RenderJob {
                    collection_name: cname.clone(),
                    hash,
                    source_path: source_path.clone(),
                    target,
                    kind: JobKind::Display,
                },
            );
        }
        let target = target_file_name(hash, JobKind::Full);
        if !list_contains(existing, &target) {
            jobs.push(
                RenderJob {
                    collection_name: cname.clone(),
                    hash,
                    source_path: source_path.clone(),
                    target,
                    kind: JobKind::Full,
                },
            );
        }
        proof {
            assert(jobs.deep_view() =~= before + picture_jobs(cname@, img, ex));
        }
    }
}

impl Collection {
    /// Plans the artifact jobs this collection still owes: three per
    /// picture needing rendering, one per such background, skipping every
    /// target that `existing` already lists.
    pub fn render_jobs(&self, existing: &Vec<String>) -> (r: Vec<RenderJob>)
        ensures
            r.deep_view() == collection_jobs(self@, existing.deep_view()),
    {
        let ghost cv = self@;
        let ghost ex = existing.deep_view();
        let mut jobs: Vec<RenderJob> = Vec::new();

        let mut i: usize = 0;
        while i < self.pictures.len()
            invariant
                cv == self@,
                ex == existing.deep_view(),
                i <= cv.pictures.len(),
                jobs.deep_view() == pictures_jobs(cv.name, cv.pictures.take(i as int), ex),
            decreases cv.pictures.len() - i,
        {
            proof {
                assert(self.pictures.deep_view()[i as int] == cv.pictures[i as int]);
                assert(cv.pictures.take(i + 1).drop_last() =~= cv.pictures.take(i as int));
            }
            let ghost before = jobs.deep_view();
            if self.pictures[i].image.update {
                push_image_jobs(
                    &mut jobs,
                    &self.name,
                    self.pictures[i].image.hash,
                    &self.pictures[i].image.source_path,
                    false,
                    existing,
                );
                proof {
                    assert(ImageV {
                        hash: cv.pictures[i as int].image.hash,
                        update: true,
                        source_path: cv.pictures[i as int].image.source_path,
                    } =~= cv.pictures[i as int].image);
                }
            }
            proof {
                assert(jobs.deep_view() =~= before + picture_jobs(
                    cv.name,
                    cv.pictures[i as int].image,
                    ex,
                ));
            }
            i = i + 1;
        }
        proof {
            assert(cv.pictures.take(cv.pictures.len() as int) =~= cv.pictures);
        }

        let ghost after_pics = jobs.deep_view();
        let mut i: usize = 0;
        while i < self.backgrounds.len()
            invariant
                cv == self@,
                ex == existing.deep_view(),
                i <= cv.backgrounds.len(),
                after_pics == pictures_jobs(cv.name, cv.pictures, ex),
                jobs.deep_view() == after_pics + backgrounds_jobs(
                    cv.name,
                    cv.backgrounds.take(i as int),
                    ex,
                ),
            decreases cv.backgrounds.len() - i,
        {
            proof {
                assert(self.backgrounds.deep_view()[i as int] == cv.backgrounds[i as int]);
                assert(cv.backgrounds.take(i + 1).drop_last() =~= cv.backgrounds.take(i as int));
            }
            let ghost before = jobs.deep_view();
            if self.backgrounds[i].update {
                push_image_jobs(
                    &mut jobs,
                    &self.name,
                    self.backgrounds[i].hash,
                    &self.backgrounds[i].source_path,
                    true,
                    existing,
                );
                proof {
                    assert(ImageV {
                        hash: cv.backgrounds[i as int].hash,
                        update: true,
                        source_path: cv.backgrounds[i as int].source_path,
                    } =~= cv.backgrounds[i as int]);
                }
            }
            proof {
                assert(jobs.deep_view() =~= before + background_jobs(
                    cv.name,
                    cv.backgrounds[i as int],
                    ex,
                ));
            }
            i = i + 1;
        }
        proof {
            assert(cv.backgrounds.take(cv.backgrounds.len() as int) =~= cv.backgrounds);
        }
        jobs
    }
}

/// `g` after removing one reported failure: the named collection, if the
/// gallery has it, loses every entry with that identity.
pub open spec fn remove_one_failure(g: GalleryV, name: Seq<char>, hash: u64) -> GalleryV {
    if has_key(g.collection_keys, name) {
        let k = key_index(g.collection_keys, name);
        let c = g.collections[k];
        GalleryV {
            collections: g.collections.update(
                k,
                CollectionV {
                    title: c.title,
                    name: c.name,
                    pictures: pictures_without(c.pictures, hash),
                    backgrounds: images_without(c.backgrounds, hash),
                },
            ),
            ..g
        }
    } else {
        g
    }
}

/// `g` after removing every reported failure, in report order.
pub open spec fn spec_remove_failures(g: GalleryV, failed: Seq<(Seq<char>, u64)>) -> GalleryV
    decreases failed.len(),
{
    if failed.len() == 0 {
        g
    } else {
        spec_remove_failures(remove_one_failure(g, failed[0].0, failed[0].1), failed.drop_first())
    }
}

/// Failure reports as pairs of character sequence and identity.
pub open spec fn failures_view(s: Seq<(String, u64)>) -> Seq<(Seq<char>, u64)> {
    s.map_values(|p: (String, u64)| (p.0@, p.1))
}

impl Gallery {
    /// Plans every artifact job the gallery still owes, collections in key
    /// order.
    pub fn render_jobs(&self, existing: &Vec<String>) -> (r: Vec<RenderJob>)
        ensures
            r.deep_view() == gallery_jobs(self@.collections, existing.deep_view()),
    {
        let ghost ex = existing.deep_view();
        let mut jobs: Vec<RenderJob> = Vec::new();
        let mut ci: usize = 0;
        while ci < self.collections.len()
            invariant
                ex == existing.deep_view(),
                ci <= self@.collections.len(),
                jobs.deep_view() == gallery_jobs(self@.collections.take(ci as int), ex),
            decreases self@.collections.len() - ci,
        {
            proof {
                assert(self.collections.deep_view()[ci as int] == self@.collections[ci as int]);
                assert(self@.collections.take(ci + 1).drop_last() =~= self@.collections.take(
                    ci as int,
                ));
            }
            let mut col_jobs = self.collections[ci].render_jobs(existing);
            let ghost before = jobs.deep_view();
            let ghost added = col_jobs.deep_view();
            jobs.append(&mut col_jobs);
            proof {
                assert(jobs.deep_view() =~= before + added);
            }
            ci = ci + 1;
        }
        proof {
            assert(self@.collections.take(self@.collections.len() as int) =~= self@.collections);
        }
        jobs
    }

    /// Removes every image recorded as failed, pair by pair: the named
    /// collection loses all entries with the reported identity; a name the
    /// gallery does not have is passed over.
    pub fn remove_failures(&mut self, failed: &Vec<(String, u64)>)
        requires
            old(self)@.wf(),
        ensures
            final(self)@.wf(),
            final(self)@ == spec_remove_failures(old(self)@, failures_view(failed@)),
    {
        let ghost fv = failures_view(failed@);
        proof {
            assert(fv.skip(0) =~= fv);
        }
        let mut i: usize = 0;
        while i < failed.len()
            invariant
                fv == failures_view(failed@),
                i <= failed@.len(),
                self@.wf(),
                spec_remove_failures(old(self)@, fv) == spec_remove_failures(
                    self@,
                    fv.skip(i as int),
                ),
            decreases failed@.len() - i,
        {
            let ghost pre = self@;
            let ghost rest = fv.skip(i as int);
            proof {
                assert(rest[0] == fv[i as int]);
                assert(rest.drop_first() =~= fv.skip(i + 1));
            }
            match self.find_key(&failed[i].0) {
                Some(k) => {
                    proof {
                        lemma_key_index_in_range(pre.collection_keys, failed@[i as int].0@);
                    }
                    let mut col = self.collections.remove(k);
                    col.remove_resource(failed[i].1);
                    self.collections.insert(k, col);
                    proof {
                        let expect = remove_one_failure(pre, fv[i as int].0, fv[i as int].1);
                        assert(self.collections.deep_view() =~~= expect.collections);
                        assert(self@ =~~= expect);
                        assert(self@.wf());
                    }
                },
                None => {
                    proof {
                        assert(remove_one_failure(pre, fv[i as int].0, fv[i as int].1) == pre);
                    }
                },
            }
            i = i + 1;
        }
        proof {
            assert(fv.skip(fv.len() as int) =~= Seq::<(Seq<char>, u64)>::empty());
        }
    }
}

/// Rendering is idempotent: when every artifact an image still owes is
/// already among the existing files, no job at all is planned.
pub proof fn lemma_render_idempotent(cols: Seq<CollectionV>, existing: Seq<Seq<char>>)
    requires
        forall|i: int, t: int|
            0 <= i < cols.len() && 0 <= t < cols[i].pictures.len() && (#[trigger] cols[i].pictures[t]).image.update ==> contains_str(
                existing,
                target_name(cols[i].pictures[t].image.hash, JobKind::Thumb),
            ) && contains_str(
                existing,
                target_name(cols[i].pictures[t].image.hash, JobKind::Display),
            ) && contains_str(
                existing,
                target_name(cols[i].pictures[t].image.hash, JobKind::Full),
            ),
        forall|i: int, t: int|
            0 <= i < cols.len() && 0 <= t < cols[i].backgrounds.len() && (#[trigger] cols[i].backgrounds[t]).update ==> contains_str(
                existing,
                target_name(cols[i].backgrounds[t].hash, JobKind::Background),
            ),
    ensures
        gallery_jobs(cols, existing) == Seq::<RenderJobV>::empty(),
    decreases cols.len(),
{
    if cols.len() > 0 {
        let head = cols.drop_last();
        assert forall|i: int, t: int|
            0 <= i < head.len() && 0 <= t < head[i].pictures.len() && (#[trigger] head[i].pictures[t]).image.update
            implies contains_str(existing, target_name(head[i].pictures[t].image.hash, JobKind::Thumb))
                && contains_str(existing, target_name(head[i].pictures[t].image.hash, JobKind::Display))
                && contains_str(existing, target_name(head[i].pictures[t].image.hash, JobKind::Full)) by {
            assert(head[i] == cols[i]);
            assert(cols[i].pictures[t].image.update);
        }
        assert forall|i: int, t: int|
            0 <= i < head.len() && 0 <= t < head[i].backgrounds.len() && (#[trigger] head[i].backgrounds[t]).update
            implies contains_str(existing, target_name(head[i].backgrounds[t].hash, JobKind::Background)) by {
            assert(head[i] == cols[i]);
            assert(cols[i].backgrounds[t].update);
        }
        lemma_render_idempotent(head, existing);
        let c = cols.last();
        let ci = cols.len() - 1;
        lemma_no_picture_jobs(c.name, c.pictures, existing, cols, ci);
        lemma_no_background_jobs(c.name, c.backgrounds, existing, cols, ci);
        assert(gallery_jobs(cols, existing) =~= Seq::<RenderJobV>::empty());
    }
}

proof fn lemma_no_picture_jobs(
    cname: Seq<char>,
    pics: Seq<PictureV>,
    existing: Seq<Seq<char>>,
    cols: Seq<CollectionV>,
    ci: int,
)
    requires
        0 <= ci < cols.len(),
        pics.len() <= cols[ci].pictures.len(),
        forall|t: int| 0 <= t < pics.len() ==> pics[t] == cols[ci].pictures[t],
        forall|i: int, t: int|
            0 <= i < cols.len() && 0 <= t < cols[i].pictures.len() && (#[trigger] cols[i].pictures[t]).image.update ==> contains_str(
                existing,
                target_name(cols[i].pictures[t].image.hash, JobKind::Thumb),
            ) && contains_str(
                existing,
                target_name(cols[i].pictures[t].image.hash, JobKind::Display),
            ) && contains_str(
                existing,
                target_name(cols[i].pictures[t].image.hash, JobKind::Full),
            ),
    ensures
        pictures_jobs(cname, pics, existing) == Seq::<RenderJobV>::empty(),
    decreases pics.len(),
{
    if pics.len() > 0 {
        assert(forall|t: int|
            0 <= t < pics.drop_last().len() ==> pics.drop_last()[t] == cols[ci].pictures[t]);
        lemma_no_picture_jobs(cname, pics.drop_last(), existing, cols, ci);
        assert(pics.last() == cols[ci].pictures[pics.len() - 1]);
        assert(pictures_jobs(cname, pics, existing) =~= Seq::<RenderJobV>::empty());
    }
}

proof fn lemma_no_background_jobs(
    cname: Seq<char>,
    bgs: Seq<ImageV>,
    existing: Seq<Seq<char>>,
    cols: Seq<CollectionV>,
    ci: int,
)
    requires
        0 <= ci < cols.len(),
        bgs.len() <= cols[ci].backgrounds.len(),
        forall|t: int| 0 <= t < bgs.len() ==> bgs[t] == cols[ci].backgrounds[t],
        forall|i: int, t: int|
            0 <= i < cols.len() && 0 <= t < cols[i].backgrounds.len() && (#[trigger] cols[i].backgrounds[t]).update ==> contains_str(
                existing,
                target_name(cols[i].backgrounds[t].hash, JobKind::Background),
            ),
    ensures
        backgrounds_jobs(cname, bgs, existing) == Seq::<RenderJobV>::empty(),
    decreases bgs.len(),
{
    if bgs.len() > 0 {
        assert(forall|t: int|
            0 <= t < bgs.drop_last().len() ==> bgs.drop_last()[t] == cols[ci].backgrounds[t]);
        lemma_no_background_jobs(cname, bgs.drop_last(), existing, cols, ci);
        assert(bgs.last() == cols[ci].backgrounds[bgs.len() - 1]);
        assert(backgrounds_jobs(cname, bgs, existing) =~= Seq::<RenderJobV>::empty());
    }
}

} // verus!

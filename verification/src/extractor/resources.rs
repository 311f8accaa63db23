//! The files of a book that are put beside its sections: images, style sheets
//! and fonts.

use vstd::prelude::*;

use crate::extractor::links::{below, directory_of, is_external, relative_to, rewritten_ref};
use crate::extractor::sections::Resource;
use crate::path::laws::{
    law_join_components, law_strip_prefix_components, law_stripped_is_relative, law_trimmed_pieces,
};
use crate::path::{
    component_seq, is_absolute, join, joined, leads, normal_form, parent, parent_path, pieces,
};
use crate::text::{begins_with, same_text, starts_with, to_chars, to_text};

pub mod laws;

verus! {

/// A media type of fonts.
pub open spec fn is_font(mime: Seq<char>) -> bool {
    ||| begins_with(mime, "font/"@)
    ||| begins_with(mime, "application/font-"@)
    ||| begins_with(mime, "application/x-font-"@)
    ||| mime == "application/vnd.ms-opentype"@
    ||| mime == "application/vnd.ms-fontobject"@
}

/// A media type of files that are put beside the sections: images, style sheets
/// and fonts.
pub open spec fn is_extracted(mime: Seq<char>) -> bool {
    ||| begins_with(mime, "image/"@)
    ||| mime == "text/css"@
    ||| is_font(mime)
}

/// Whether files of a media type are put beside the sections.
pub fn is_extracted_type(mime: &str) -> (b: bool)
    ensures
        b == is_extracted(mime@),
{
    let chars = to_chars(mime);
    let font = starts_with(chars.as_slice(), "font/") || starts_with(
        chars.as_slice(),
        "application/font-",
    ) || starts_with(chars.as_slice(), "application/x-font-") || same_text(
        mime,
        "application/vnd.ms-opentype",
    ) || same_text(mime, "application/vnd.ms-fontobject");
    starts_with(chars.as_slice(), "image/") || same_text(mime, "text/css") || font
}

/// A file to take out of the book: the one with the id `id` goes to `dest`, in
/// the directory `parent`.
pub struct ResourceJob {
    pub id: String,
    pub dest: String,
    pub parent: Option<String>,
}

/// What a [`ResourceJob`] holds.
#[verifier::ext_equal]
pub struct JobView {
    pub id: Seq<char>,
    pub dest: Seq<char>,
    pub parent: Option<Seq<char>>,
}

impl View for ResourceJob {
    type V = JobView;

    open spec fn view(&self) -> JobView {
        JobView {
            id: self.id@,
            dest: self.dest@,
            parent: match self.parent {
                Some(dir) => Some(dir@),
                None => None,
            },
        }
    }
}

/// What a list of jobs holds.
pub open spec fn job_views(jobs: Seq<ResourceJob>) -> Seq<JobView> {
    Seq::new(jobs.len(), |i: int| jobs[i]@)
}

/// Where a file of the book goes: to its place below the book's root `base`, in
/// the book's directory `out_dir`.
pub open spec fn destination(path: Seq<char>, base: Seq<char>, out_dir: Seq<char>) -> Seq<char> {
    joined(out_dir, relative_to(path, base))
}

/// The jobs for the files listed in `resources`, in that order.
pub open spec fn jobs_for(resources: Seq<Resource>, base: Seq<char>, out_dir: Seq<char>) -> Seq<
    JobView,
>
    decreases resources.len(),
{
    if resources.len() == 0 {
        seq![]
    } else {
        let before = jobs_for(resources.drop_last(), base, out_dir);
        let last = resources.last();
        if is_extracted(last.mime@) {
            let dest = destination(last.path@, base, out_dir);
            before.push(JobView { id: last.id@, dest, parent: parent_path(dest) })
        } else {
            before
        }
    }
}

/// The files to take out of a book, with the places below `out_dir` that keep
/// the directory structure below `root_base`.
pub fn plan_resources(resources: &Vec<Resource>, root_base: &str, out_dir: &str) -> (jobs: Vec<
    ResourceJob,
>)
    ensures
        job_views(jobs@) == jobs_for(resources@, root_base@, out_dir@),
{
    let base = to_chars(root_base);
    let out = to_chars(out_dir);
    let mut jobs: Vec<ResourceJob> = Vec::new();
    assert(job_views(jobs@) == jobs_for(resources@.take(0), root_base@, out_dir@));
    for i in 0..resources.len()
        invariant
            base@ == root_base@,
            out@ == out_dir@,
            job_views(jobs@) == jobs_for(resources@.take(i as int), root_base@, out_dir@),
    {
        let ghost before = job_views(jobs@);
        let resource = &resources[i];
        proof {
            assert(resources@.take(i + 1).drop_last() == resources@.take(i as int));
            assert(resources@.take(i + 1).last() == *resource);
        }
        if is_extracted_type(resource.mime.as_str()) {
            let path = to_chars(resource.path.as_str());
            let rel = below(path.as_slice(), base.as_slice());
            let dest = join(out.as_slice(), rel.as_slice());
            let dir: Option<String> = match parent(dest.as_slice()) {
                Some(dir) => Some(to_text(dir.as_slice())),
                None => None,
            };
            let job = ResourceJob {
                id: resource.id.clone(),
                dest: to_text(dest.as_slice()),
                parent: dir,
            };
            let ghost view = job@;
            jobs.push(job);
            assert(job_views(jobs@) == before.push(view));
        }
    }
    assert(resources@.take(resources@.len() as int) == resources@);
    jobs
}

/// A rewritten reference leads to the file it meant: a reference that resolves
/// to the path of a file in the book becomes, seen from the book's directory,
/// the place that the file is put to.
pub proof fn law_reference_meets_file(
    reference: Seq<char>,
    section: Seq<char>,
    path: Seq<char>,
    base: Seq<char>,
    out_dir: Seq<char>,
)
    requires
        !is_external(reference),
        normal_form(joined(directory_of(section), reference)) == path,
    ensures
        joined(out_dir, rewritten_ref(reference, directory_of(section), base)) == destination(
            path,
            base,
            out_dir,
        ),
{
}

/// The directory structure below the book's root is kept: a file goes to the
/// components of its path behind those of the root, and a file outside the root
/// to all of them.
pub proof fn law_structure_is_kept(path: Seq<char>, base: Seq<char>, out_dir: Seq<char>)
    requires
        out_dir.len() > 0,
        !is_absolute(relative_to(path, base)),
    ensures
        component_seq(destination(path, base, out_dir)) == component_seq(out_dir) + (if leads(
            base,
            path,
        ) && component_seq(base).len() > 0 {
            component_seq(path).skip(component_seq(base).len() as int)
        } else {
            pieces(path)
        }),
{
    let rest = relative_to(path, base);
    law_join_components(out_dir, rest);
    law_strip_prefix_components(path, base);
    if leads(base, path) && component_seq(base).len() > 0 {
        law_stripped_is_relative(path, base);
        assert(component_seq(path).skip(component_seq(base).len() as int) == component_seq(rest));
    } else {
        law_trimmed_pieces(path);
    }
}

} // verus!

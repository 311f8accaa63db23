//! What holds of the files that are taken out of a book.

use vstd::prelude::*;

use crate::extractor::resources::{destination, is_extracted, job_views, jobs_for, ResourceJob};
use crate::extractor::sections::Resource;
use crate::path::laws::{
    are_names, law_joined_text, law_stripped_text, lemma_names_text, with_slashes,
};
use crate::path::parent_path;
use crate::text::begins_with;
use crate::text::laws::law_beginnings_and_ends;

verus! {

/// Images, style sheets and fonts are taken out, whatever kind of image or font they
/// are.
pub proof fn law_images_style_sheets_and_fonts(kind: Seq<char>)
    ensures
        is_extracted("image/"@ + kind),
        is_extracted("text/css"@),
        is_extracted("font/"@ + kind),
        is_extracted("application/font-"@ + kind),
        is_extracted("application/x-font-"@ + kind),
        is_extracted("application/vnd.ms-opentype"@),
        is_extracted("application/vnd.ms-fontobject"@),
{
    law_beginnings_and_ends("image/"@, kind, kind);
    law_beginnings_and_ends("font/"@, kind, kind);
    law_beginnings_and_ends("application/font-"@, kind, kind);
    law_beginnings_and_ends("application/x-font-"@, kind, kind);
}

/// Nothing but images, style sheets and fonts is taken out.
pub proof fn law_nothing_else_is_taken_out(mime: Seq<char>)
    requires
        is_extracted(mime),
    ensures
        ({
            ||| exists|kind: Seq<char>| mime == #[trigger] ("image/"@ + kind)
            ||| mime == "text/css"@
            ||| exists|kind: Seq<char>| mime == #[trigger] ("font/"@ + kind)
            ||| exists|kind: Seq<char>| mime == #[trigger] ("application/font-"@ + kind)
            ||| exists|kind: Seq<char>| mime == #[trigger] ("application/x-font-"@ + kind)
            ||| mime == "application/vnd.ms-opentype"@
            ||| mime == "application/vnd.ms-fontobject"@
        }),
{
    let none = Seq::<char>::empty();
    law_beginnings_and_ends("image/"@, none, mime);
    law_beginnings_and_ends("font/"@, none, mime);
    law_beginnings_and_ends("application/font-"@, none, mime);
    law_beginnings_and_ends("application/x-font-"@, none, mime);
    if begins_with(mime, "image/"@) {
        assert(mime == "image/"@ + mime.subrange("image/"@.len() as int, mime.len() as int));
    } else if begins_with(mime, "font/"@) {
        assert(mime == "font/"@ + mime.subrange("font/"@.len() as int, mime.len() as int));
    } else if begins_with(mime, "application/font-"@) {
        assert(mime == "application/font-"@ + mime.subrange(
            "application/font-"@.len() as int,
            mime.len() as int,
        ));
    } else if begins_with(mime, "application/x-font-"@) {
        assert(mime == "application/x-font-"@ + mime.subrange(
            "application/x-font-"@.len() as int,
            mime.len() as int,
        ));
    }
}

/// How many of the first `n` files are taken out.
pub open spec fn files_taken(resources: Seq<Resource>, n: int) -> int
    decreases n,
{
    if n <= 0 {
        0
    } else {
        files_taken(resources, n - 1) + if is_extracted(resources[n - 1].mime@) {
            1int
        } else {
            0
        }
    }
}

/// Each file that is taken out has its job in its turn, with its own id, its own place
/// and the directory of that place, and there are no other jobs.
pub proof fn law_every_file_has_its_job(
    resources: Seq<Resource>,
    base: Seq<char>,
    out_dir: Seq<char>,
    r: int,
)
    requires
        0 <= r < resources.len(),
    ensures
        jobs_for(resources, base, out_dir).len() == files_taken(resources, resources.len() as int),
        is_extracted(resources[r].mime@) ==> {
            let k = files_taken(resources, r);
            let jobs = jobs_for(resources, base, out_dir);
            &&& 0 <= k < jobs.len()
            &&& jobs[k].id == resources[r].id@
            &&& jobs[k].dest == destination(resources[r].path@, base, out_dir)
            &&& jobs[k].parent == parent_path(jobs[k].dest)
        },
    decreases resources.len(),
{
    let front = resources.drop_last();
    let n = resources.len() as int;
    lemma_job_count(front, base, out_dir);
    lemma_files_taken(resources, front, n - 1);
    lemma_files_taken_grow(resources, n - 1);
    if r < n - 1 {
        law_every_file_has_its_job(front, base, out_dir, r);
        assert(front[r] == resources[r]);
        lemma_files_taken(resources, front, r);
    }
}

proof fn lemma_job_count(resources: Seq<Resource>, base: Seq<char>, out_dir: Seq<char>)
    ensures
        jobs_for(resources, base, out_dir).len() == files_taken(resources, resources.len() as int),
    decreases resources.len(),
{
    if resources.len() > 0 {
        lemma_job_count(resources.drop_last(), base, out_dir);
        lemma_files_taken(resources, resources.drop_last(), resources.len() - 1);
    }
}

proof fn lemma_files_taken(a: Seq<Resource>, b: Seq<Resource>, n: int)
    requires
        n <= a.len(),
        n <= b.len(),
        forall|i: int| 0 <= i < n ==> a[i] == b[i],
    ensures
        files_taken(a, n) == files_taken(b, n),
    decreases n,
{
    if n > 0 {
        lemma_files_taken(a, b, n - 1);
        assert(a[n - 1] == b[n - 1]);
    }
}

proof fn lemma_files_taken_grow(resources: Seq<Resource>, n: int)
    ensures
        files_taken(resources, n) >= 0,
    decreases n,
{
    if n > 0 {
        lemma_files_taken_grow(resources, n - 1);
    }
}

/// A file below the book's root goes to the same names below the book's directory.
pub proof fn law_place_of_a_file(
    root: Seq<Seq<char>>,
    names: Seq<Seq<char>>,
    out_dir: Seq<char>,
)
    requires
        are_names(root + names),
        names.len() > 0,
        out_dir.len() > 0,
        out_dir.last() != '/',
    ensures
        destination(with_slashes(root + names), with_slashes(root), out_dir) == out_dir + seq!['/']
            + with_slashes(names),
{
    law_stripped_text(root, names);
    assert(are_names(names)) by {
        assert forall|i: int| 0 <= i < names.len() implies crate::path::laws::is_name(
            #[trigger] names[i],
        ) by {
            assert(names[i] == (root + names)[root.len() + i]);
        }
    }
    lemma_names_text(names);
    law_joined_text(out_dir, with_slashes(names));
}

/// What a list of jobs holds, one by one.
pub proof fn law_jobs_one_by_one(jobs: Seq<ResourceJob>, i: int)
    requires
        0 <= i < jobs.len(),
    ensures
        job_views(jobs).len() == jobs.len(),
        job_views(jobs)[i].id == jobs[i].id@,
        job_views(jobs)[i].dest == jobs[i].dest@,
        jobs[i].parent matches Some(dir) ==> job_views(jobs)[i].parent == Some(dir@),
        jobs[i].parent is None ==> job_views(jobs)[i].parent is None,
{
}

} // verus!

//! The trail of links from the root to a page.

use vstd::prelude::*;
use vstd::string::StringExecFns;

use crate::text::{split, split_chars, texts, to_chars, to_text};

verus! {

/// One link of the trail.
pub struct Breadcrumb {
    pub url: String,
    pub name: String,
}

/// What a [`Breadcrumb`] holds.
#[verifier::ext_equal]
pub struct Crumb {
    pub url: Seq<char>,
    pub name: Seq<char>,
}

impl View for Breadcrumb {
    type V = Crumb;

    open spec fn view(&self) -> Crumb {
        Crumb { url: self.url@, name: self.name@ }
    }
}

/// What a list of breadcrumbs holds.
pub open spec fn crumb_views(crumbs: Seq<Breadcrumb>) -> Seq<Crumb> {
    Seq::new(crumbs.len(), |i: int| crumbs[i]@)
}

/// The parts of a path between slashes that are not empty.
pub open spec fn segments(rel_path: Seq<char>) -> Seq<Seq<char>> {
    split(rel_path, '/').filter(|segment: Seq<char>| segment.len() > 0)
}

/// The address of the directory that the first `n` segments lead to: each
/// segment with a slash before and behind it.
pub open spec fn trail_url(segments: Seq<Seq<char>>, n: int) -> Seq<char>
    decreases n,
{
    if n <= 0 {
        seq![]
    } else {
        trail_url(segments, n - 1) + seq!['/'] + segments[n - 1] + seq!['/']
    }
}

/// The trail to the page `rel_path`: the root, and then a link for each segment.
pub open spec fn trail(rel_path: Seq<char>) -> Seq<Crumb> {
    let segments = segments(rel_path);
    seq![Crumb { url: "/"@, name: "root"@ }] + Seq::new(
        segments.len(),
        |i: int| Crumb { url: trail_url(segments, i + 1), name: segments[i] },
    )
}

/// The trail to the page `rel_path`.
pub fn build_breadcrumbs(rel_path: &str) -> (crumbs: Vec<Breadcrumb>)
    ensures
        crumb_views(crumbs@) == trail(rel_path@),
{
    let mut crumbs: Vec<Breadcrumb> = Vec::new();
    crumbs.push(Breadcrumb { url: String::from_str("/"), name: String::from_str("root") });
    let parts = split_chars(to_chars(rel_path).as_slice(), '/');
    let ghost all = split(rel_path@, '/');
    let ghost keep = |segment: Seq<char>| segment.len() > 0;
    let ghost segs = segments(rel_path@);
    let mut url = String::new();
    let ghost mut count: int = 0;
    proof {
        assert(all.take(0).filter(keep) == Seq::<Seq<char>>::empty()) by {
            assert(all.take(0) == Seq::<Seq<char>>::empty());
        }
        assert(crumbs@[0]@ == trail(rel_path@)[0]);
        assert(crumb_views(crumbs@) == trail(rel_path@).take(1));
    }
    for i in 0..parts.len()
        invariant
            texts(parts@) == all,
            all == split(rel_path@, '/'),
            keep == (|segment: Seq<char>| segment.len() > 0),
            segs == segments(rel_path@),
            0 <= count <= segs.len(),
            all.take(i as int).filter(keep) == segs.take(count),
            url@ == trail_url(segs, count),
            crumb_views(crumbs@) == trail(rel_path@).take(count + 1),
    {
        proof {
            assert(all.take(i + 1).drop_last() == all.take(i as int));
            assert(all.take(i + 1).last() == parts@[i as int]@);
            assert(all.take(i + 1) + all.skip(i + 1) == all);
            Seq::filter_distributes_over_add(all.take(i + 1), all.skip(i + 1), keep);
            reveal(Seq::filter);
        }
        if parts[i].len() > 0 {
            let ghost before = crumb_views(crumbs@);
            let ghost url_before = url@;
            let segment = to_text(parts[i].as_slice());
            proof {
                let longer = all.take(i + 1).filter(keep);
                assert(longer == segs.take(count).push(segment@));
                assert(longer.len() == count + 1);
                assert(segs.len() >= longer.len());
                assert(segs[count] == longer[count]);
                assert(longer == segs.take(count + 1));
            }
            url.push('/');
            url.append(segment.as_str());
            url.push('/');
            assert(url@ == url_before + seq!['/'] + segment@ + seq!['/']);
            crumbs.push(Breadcrumb { url: url.clone(), name: segment });
            proof {
                let crumb = Crumb { url: trail_url(segs, count + 1), name: segs[count] };
                assert(trail(rel_path@)[count + 1] == crumb);
                assert(crumbs@.last()@ == crumb);
                assert(crumb_views(crumbs@) == before.push(crumb));
                assert(trail(rel_path@).take(count + 2) == trail(rel_path@).take(count + 1).push(
                    crumb,
                ));
                count = count + 1;
            }
        }
    }
    proof {
        assert(all.take(all.len() as int) == all);
        assert(segs.take(count) == segs);
        assert(count == segs.len());
        assert(trail(rel_path@).take(count + 1) == trail(rel_path@));
    }
    crumbs
}

/// The trail begins at the root, and each of its other links is named by a
/// segment of the path, in order.
pub proof fn law_trail_follows_path(rel_path: Seq<char>)
    ensures
        trail(rel_path).len() == segments(rel_path).len() + 1,
        trail(rel_path)[0] == (Crumb { url: "/"@, name: "root"@ }),
        forall|i: int|
            0 <= i < segments(rel_path).len() ==> (#[trigger] trail(rel_path)[i + 1]).name
                == segments(rel_path)[i],
{
}

/// Every link of the trail begins and ends with a slash.
pub proof fn law_trail_urls_are_directories(rel_path: Seq<char>, i: int)
    requires
        0 <= i < trail(rel_path).len(),
    ensures
        trail(rel_path)[i].url.len() > 0,
        trail(rel_path)[i].url[0] == '/',
        trail(rel_path)[i].url.last() == '/',
    decreases i,
{
    reveal_strlit("/");
    let segs = segments(rel_path);
    if i > 0 {
        let url = trail_url(segs, i);
        assert(trail(rel_path)[i].url == url);
        if i > 1 {
            law_trail_urls_are_directories(rel_path, i - 1);
            assert(trail(rel_path)[i - 1].url == trail_url(segs, i - 1));
            assert(url[0] == trail_url(segs, i - 1)[0]);
        } else {
            assert(trail_url(segs, 0) == Seq::<char>::empty());
        }
    }
}

/// The segments of a path: a text without a slash is one, unless it is empty, and two
/// texts with a slash between them have the segments of both.
pub proof fn law_segments_between_slashes(a: Seq<char>, b: Seq<char>)
    ensures
        segments(a + seq!['/'] + b) == segments(a) + segments(b),
        !a.contains('/') && a.len() > 0 ==> segments(a) == seq![a],
        a.len() == 0 ==> segments(a).len() == 0,
{
    let keep = |segment: Seq<char>| segment.len() > 0;
    crate::text::laws::law_splitting(a, '/', b);
    Seq::filter_distributes_over_add(split(a, '/'), split(b, '/'), keep);
    reveal(Seq::filter);
    reveal_with_fuel(Seq::filter, 2);
    assert(seq![a].drop_last() == Seq::<Seq<char>>::empty());
    if a.len() == 0 {
        assert(!a.contains('/'));
    }
}

/// Each link of the trail leads one segment further than the one before it.
pub proof fn law_trail_grows_by_segments(rel_path: Seq<char>, i: int)
    requires
        0 <= i < segments(rel_path).len(),
    ensures
        trail(rel_path)[i + 1].url == (if i == 0 {
            seq![]
        } else {
            trail(rel_path)[i].url
        }) + seq!['/'] + segments(rel_path)[i] + seq!['/'],
{
    let segs = segments(rel_path);
    assert(trail(rel_path)[i + 1].url == trail_url(segs, i + 1));
    if i > 0 {
        assert(trail(rel_path)[i].url == trail_url(segs, i));
    } else {
        assert(trail_url(segs, 0) == Seq::<char>::empty());
    }
}

/// What a trail holds, one by one.
pub proof fn law_crumbs_one_by_one(crumbs: Seq<Breadcrumb>, i: int)
    requires
        0 <= i < crumbs.len(),
    ensures
        crumb_views(crumbs).len() == crumbs.len(),
        crumb_views(crumbs)[i].url == crumbs[i].url@,
        crumb_views(crumbs)[i].name == crumbs[i].name@,
{
}

} // verus!

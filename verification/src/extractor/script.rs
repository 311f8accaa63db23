//! The script that keeps a reader's place, put into every section page.

use vstd::prelude::*;
use vstd::string::StringExecFns;

use crate::text::{
    ascii_lower, lemma_rfind_to, occurs_at, rfind, rfind_chars, slice_copy, to_ascii_lowercase,
    to_chars, to_text,
};

verus! {

/// Reports the topmost visible element while a page is scrolled, and goes back
/// to it when the page is loaded again.
pub const SCROLL_SCRIPT: &'static str = r#"<script>
(function() {
  function getNodePath(el) {
    var path = [];
    var node = el;
    while (node && node !== document.body) {
      var parent = node.parentElement;
      if (!parent) break;
      path.unshift(Array.prototype.indexOf.call(parent.children, node));
      node = parent;
    }
    return path;
  }

  function findTopmostVisible() {
    var x = Math.max(1, Math.floor(window.innerWidth / 2));
    var el = document.elementFromPoint(x, 1);
    return el || document.body;
  }

  function resolveNodePath(nodePath) {
    var el = document.body;
    for (var i = 0; i < nodePath.length; i++) {
      if (!el.children || nodePath[i] >= el.children.length) return null;
      el = el.children[nodePath[i]];
    }
    return el;
  }

  var debounceTimer = null;
  window.addEventListener('scroll', function() {
    clearTimeout(debounceTimer);
    debounceTimer = setTimeout(function() {
      var el = findTopmostVisible();
      var rect = el.getBoundingClientRect();
      fetch('/api/updateReadPosition', {
        method: 'POST',
        headers: { 'Content-Type': 'application/json' },
        body: JSON.stringify({
          path: window.location.pathname,
          node_path: getNodePath(el),
          offset: Math.max(0, -Math.round(rect.top))
        })
      }).catch(function() {});
    }, 500);
  }, { passive: true });

  window.addEventListener('load', function() {
    fetch('/api/readPosition?path=' + encodeURIComponent(window.location.pathname))
      .then(function(r) { return r.json(); })
      .then(function(data) {
        if (!data.node_path || !data.node_path.length) return;
        var el = resolveNodePath(data.node_path);
        if (!el) return;
        el.scrollIntoView({ block: 'start' });
        if (data.offset > 0) window.scrollBy(0, data.offset);
      })
      .catch(function() {});
  });
})();
</script>"#;

/// The page `html` with the script in front of its last `</body>`, in whatever
/// case that is written, or at its end where there is none.
pub open spec fn with_script(html: Seq<char>) -> Seq<char> {
    match rfind(ascii_lower(html), "</body>"@) {
        Some(at) => html.take(at) + seq!['\n'] + SCROLL_SCRIPT@ + seq!['\n'] + html.skip(at),
        None => html + seq!['\n'] + SCROLL_SCRIPT@,
    }
}

/// Puts the scroll-position tracking script in front of the last `</body>`. A
/// page without one (some sections are fragments) gets it at its end.
pub fn inject_scroll_script(html: &str) -> (page: String)
    ensures
        page@ == with_script(html@),
{
    let chars = to_chars(html);
    let lower = to_ascii_lowercase(chars.as_slice());
    let tag = to_chars("</body>");
    match rfind_chars(lower.as_slice(), tag.as_slice()) {
        Some(at) => {
            proof {
                lemma_rfind_to(lower@, tag@, lower@.len() - tag@.len());
            }
            let head = slice_copy(chars.as_slice(), 0, at);
            let tail = slice_copy(chars.as_slice(), at, chars.len());
            assert(head@ == html@.take(at as int));
            assert(tail@ == html@.skip(at as int));
            let mut page = to_text(head.as_slice());
            page.push('\n');
            page.append(SCROLL_SCRIPT);
            page.push('\n');
            page.append(to_text(tail.as_slice()).as_str());
            assert(page@ == with_script(html@));
            page
        },
        None => {
            let mut page = to_text(chars.as_slice());
            page.push('\n');
            page.append(SCROLL_SCRIPT);
            assert(page@ == with_script(html@));
            page
        },
    }
}

/// `at` is where the last `</body>` of the page begins, in whatever case it is
/// written, or the end of a page without one.
pub open spec fn is_last_body_end(html: Seq<char>, at: int) -> bool {
    let lower = ascii_lower(html);
    &&& at == html.len() || occurs_at(lower, "</body>"@, at)
    &&& forall|j: int| #[trigger] occurs_at(lower, "</body>"@, j) ==> j <= at && at < html.len()
}

/// The script is all that is added: the page is still there around it, and what
/// follows the script is nothing, or begins at the page's last `</body>`.
pub proof fn law_script_only_added(html: Seq<char>)
    ensures
        exists|at: int| #[trigger] script_stands_at(html, at) && is_last_body_end(html, at),
{
    let lower = ascii_lower(html);
    reveal_strlit("</body>");
    lemma_rfind_to(lower, "</body>"@, lower.len() - "</body>"@.len());
    match rfind(lower, "</body>"@) {
        Some(at) => {
            assert(with_script(html) == html.take(at) + (seq!['\n'] + SCROLL_SCRIPT@ + seq!['\n'])
                + html.skip(at));
            assert(script_stands_at(html, at));
        },
        None => {
            let at = html.len() as int;
            assert(html.take(at) == html);
            assert(html.skip(at) == Seq::<char>::empty());
            assert(with_script(html) == html.take(at) + (seq!['\n'] + SCROLL_SCRIPT@) + html.skip(
                at,
            ));
            assert(script_stands_at(html, at));
        },
    }
}

/// The page with the script is the page, cut at `at`, around the script.
pub open spec fn script_stands_at(html: Seq<char>, at: int) -> bool {
    &&& 0 <= at <= html.len()
    &&& exists|gap: Seq<char>|
        {
            &&& gap == seq!['\n'] + SCROLL_SCRIPT@ || gap == seq!['\n'] + SCROLL_SCRIPT@ + seq!['\n']
            &&& with_script(html) == #[trigger] (html.take(at) + gap) + html.skip(at)
        }
}

/// Where the last `</body>` of a page stands behind `a`, the script comes between `a` and
/// that tag, on lines of its own; a page without one gets it at its end.
pub proof fn law_script_is_put(a: Seq<char>, tag: Seq<char>, b: Seq<char>, fragment: Seq<char>)
    requires
        ascii_lower(tag) == "</body>"@,
        forall|i: int| #[trigger]
            occurs_at(ascii_lower(a + tag + b), "</body>"@, i) ==> i <= a.len(),
        forall|i: int| !#[trigger] occurs_at(ascii_lower(fragment), "</body>"@, i),
    ensures
        with_script(a + tag + b) == a + seq!['\n'] + SCROLL_SCRIPT@ + seq!['\n'] + tag + b,
        with_script(fragment) == fragment + seq!['\n'] + SCROLL_SCRIPT@,
{
    let html = a + tag + b;
    let lower = ascii_lower(html);
    let word = "</body>"@;
    assert(ascii_lower(tag).len() == tag.len());
    assert(lower.subrange(a.len() as int, a.len() as int + word.len()) == ascii_lower(tag));
    assert(occurs_at(lower, word, a.len() as int));
    lemma_rfind_to(lower, word, lower.len() - word.len());
    assert(rfind(lower, word) == Some(a.len() as int)) by {
        let found = rfind(lower, word)->0;
        assert(found <= a.len());
    }
    assert(html.take(a.len() as int) == a);
    assert(html.skip(a.len() as int) == tag + b);
    assert(a + seq!['\n'] + SCROLL_SCRIPT@ + seq!['\n'] + (tag + b) == a + seq!['\n']
        + SCROLL_SCRIPT@ + seq!['\n'] + tag + b);
    let other = ascii_lower(fragment);
    lemma_rfind_to(other, word, other.len() - word.len());
}

} // verus!

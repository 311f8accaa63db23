//! The index of a book as an HTML page.

use vstd::prelude::*;
use vstd::string::StringExecFns;

use crate::util::{escape_html, escaped};

verus! {

/// The line of the index for one section: its title, linked to its file.
pub open spec fn index_line(title: Seq<char>, filename: Seq<char>) -> Seq<char> {
    "  <li><a href=\""@ + filename + "\">"@ + escaped(title) + "</a></li>\n"@
}

/// The titles and file names that a list of sections holds.
pub open spec fn listing(sections: Seq<(String, String)>) -> Seq<(Seq<char>, Seq<char>)> {
    Seq::new(sections.len(), |i: int| (sections[i].0@, sections[i].1@))
}

/// The lines of the index, one for each (title, file name).
pub open spec fn index_lines(sections: Seq<(Seq<char>, Seq<char>)>) -> Seq<char>
    decreases sections.len(),
{
    if sections.len() == 0 {
        seq![]
    } else {
        index_lines(sections.drop_last()) + index_line(sections.last().0, sections.last().1)
    }
}

/// The index page of a book.
pub open spec fn index_page(
    book_name: Seq<char>,
    sections: Seq<(Seq<char>, Seq<char>)>,
) -> Seq<char> {
    "<!DOCTYPE html>\n<html>\n<head><meta charset=\"utf-8\"><title>"@ + escaped(book_name)
        + "</title></head>\n<body>\n<h1>"@ + escaped(book_name) + "</h1>\n<ul>\n"@ + index_lines(
        sections,
    ) + "</ul>\n</body>\n</html>\n"@
}

/// The index page of a book: its name, and its sections as (title, file name).
pub fn generate_index(book_name: &str, sections: &[(String, String)]) -> (html: String)
    ensures
        html@ == index_page(book_name@, listing(sections@)),
{
    let name = escape_html(book_name);
    let mut html = String::from_str(
        "<!DOCTYPE html>\n<html>\n<head><meta charset=\"utf-8\"><title>",
    );
    html.append(name.as_str());
    html.append("</title></head>\n<body>\n<h1>");
    html.append(name.as_str());
    html.append("</h1>\n<ul>\n");
    let ghost head = html@;
    let ghost listed = listing(sections@);
    assert(head + index_lines(listed.take(0)) == head);
    for i in 0..sections.len()
        invariant
            listed == listing(sections@),
            html@ == head + index_lines(listed.take(i as int)),
    {
        let ghost before = html@;
        assert(listed.take(i + 1).drop_last() == listed.take(i as int));
        assert(listed.take(i + 1).last() == listed[i as int]);
        html.append("  <li><a href=\"");
        html.append(sections[i].1.as_str());
        html.append("\">");
        html.append(escape_html(sections[i].0.as_str()).as_str());
        html.append("</a></li>\n");
        assert(html@ == before + index_line(sections@[i as int].0@, sections@[i as int].1@));
    }
    assert(listed.take(listed.len() as int) == listed);
    html.append("</ul>\n</body>\n</html>\n");
    html
}

/// The lines of two lists of sections, one behind the other, are those of the one and
/// then those of the other.
pub proof fn law_index_lines_one_by_one(
    a: Seq<(Seq<char>, Seq<char>)>,
    b: Seq<(Seq<char>, Seq<char>)>,
)
    ensures
        index_lines(a + b) == index_lines(a) + index_lines(b),
    decreases b.len(),
{
    if b.len() == 0 {
        assert(a + b == a);
    } else {
        law_index_lines_one_by_one(a, b.drop_last());
        assert((a + b).drop_last() == a + b.drop_last());
        assert(index_lines(a) + (index_lines(b.drop_last()) + index_line(b.last().0, b.last().1))
            == index_lines(a) + index_lines(b.drop_last()) + index_line(b.last().0, b.last().1));
    }
}

/// The line of a section links its escaped title to its file, and the lines stand below
/// the escaped name of the book, which is the title of the page as well.
pub proof fn law_index_page_shows(
    book_name: Seq<char>,
    sections: Seq<(Seq<char>, Seq<char>)>,
    title: Seq<char>,
    filename: Seq<char>,
)
    ensures
        index_lines(seq![(title, filename)]) == "  <li><a href=\""@ + filename + "\">"@ + escaped(
            title,
        ) + "</a></li>\n"@,
        index_lines(seq![]) == Seq::<char>::empty(),
        index_page(book_name, sections)
            == "<!DOCTYPE html>\n<html>\n<head><meta charset=\"utf-8\"><title>"@ + escaped(book_name)
            + "</title></head>\n<body>\n<h1>"@ + escaped(book_name) + "</h1>\n<ul>\n"@
            + index_lines(sections) + "</ul>\n</body>\n</html>\n"@,
{
    reveal_with_fuel(index_lines, 2);
    let one = seq![(title, filename)];
    assert(one.drop_last() == Seq::<(Seq<char>, Seq<char>)>::empty());
    assert(one.last() == (title, filename));
    assert(Seq::<char>::empty() + index_line(title, filename) == index_line(title, filename));
}

/// What a list of sections holds, one by one.
pub proof fn law_listing_one_by_one(sections: Seq<(String, String)>, i: int)
    requires
        0 <= i < sections.len(),
    ensures
        listing(sections).len() == sections.len(),
        listing(sections)[i].0 == sections[i].0@,
        listing(sections)[i].1 == sections[i].1@,
{
}

} // verus!

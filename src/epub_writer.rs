//! Page assembly for the e-book export of a script document: one page
//! before the first bookmark and one page per bookmark, with choices
//! turned into links to the pages of their targets.
use vstd::prelude::*;

use crate::reader::{LineType, LineView, Reader};
use crate::text::{chars_of, decimal, extend, format_decimal, string_of};
use crate::writer::{
    CompileError, Failure, Malformed, find_entry, keys, lookup, malformed_reason, names, syms_view,
};

verus! {

pub const COVER_HEAD: &'static str = "<?xml version=\"1.0\" encoding=\"UTF-8\" standalone=\"no\" ?><html xmlns=\"http://www.w3.org/1999/xhtml\">\n<head>\n    <title>Cover</title>\n    <meta content=\"http://www.w3.org/1999/xhtml; charset=utf-8\" http-equiv=\"Content-Type\"/>\n    <style title=\"override_css\" type=\"text/css\">\n        @page { padding: 0pt; margin: 0pt }\n        body { text-align: center; padding:0pt; margin: 0pt; }\n    </style>\n</head>\n<body>\n    <div>\n        <svg xmlns=\"http://www.w3.org/2000/svg\" height=\"100%\" version=\"1.1\" viewBox=\"0 0 ";
pub const COVER_VIEWBOX_END: &'static str = "\" width=\"100%\" xmlns:xlink=\"http://www.w3.org/1999/xlink\">\n            <image height=\"";
pub const COVER_HEIGHT_END: &'static str = "\" width=\"";
pub const COVER_TAIL: &'static str = "\" xlink:href=\"cover.jpg\"/>\n        </svg>\n    </div>\n</body>\n</html>";
pub const TITLE_HEAD: &'static str = "<?xml version=\"1.0\" encoding=\"UTF-8\" standalone=\"no\" ?>\n<html xmlns=\"http://www.w3.org/1999/xhtml\">\n<head>\n\t<title>";
pub const TITLE_MIDDLE: &'static str = "</title>\n\t<meta content=\"http://www.w3.org/1999/xhtml; charset=utf-8\" http-equiv=\"Content-Type\" />\n\t<link href=\"stylesheet.css\" rel=\"stylesheet\" type=\"text/css\" />\n</head>\n<body>\n\t<h1>";
pub const TITLE_AUTHOR: &'static str = "</h1>\n\t<p>";
pub const TITLE_TAIL: &'static str = "</p>\n</body>\n</html>";
pub const PAGE_HEAD: &'static str = "<?xml version=\"1.0\" encoding=\"UTF-8\" standalone=\"no\" ?><html xmlns=\"http://www.w3.org/1999/xhtml\">\n<head>\n    <title>Page</title>\n    <meta content=\"http://www.w3.org/1999/xhtml; charset=utf-8\" http-equiv=\"Content-Type\"/>\n    <link href=\"stylesheet.css\" rel=\"stylesheet\" type=\"text/css\"/>\n</head>\n<body>\n    ";
pub const PAGE_TAIL: &'static str = "\n</body>\n</html>";

pub const PARAGRAPH_OPEN: &'static str = "<p>";
pub const PARAGRAPH_CLOSE: &'static str = "</p>";
pub const LINK_OPEN: &'static str = "<p><a href=\"";
pub const CHAPTER_PREFIX: &'static str = "chapter_";
pub const CHAPTER_SUFFIX: &'static str = ".xhtml";
pub const CHAPTER_TITLE: &'static str = "Chapter ";
pub const LINK_TARGET_END: &'static str = "\">";
pub const LINK_CLOSE: &'static str = "</a></p>";
pub const SPACE: &'static str = " ";

/// The page number of each bookmark of `doc`: the first is on page 1.
pub open spec fn bookmark_pages(doc: Seq<LineView>) -> Seq<(Seq<char>, nat)>
    decreases doc.len(),
{
    if doc.len() == 0 {
        Seq::empty()
    } else {
        let p = bookmark_pages(doc.drop_last());
        if doc.last().kind == LineType::Bookmark { p.push((doc.last().key, p.len() + 1)) } else { p }
    }
}

/// A paragraph in page markup.
pub open spec fn paragraph(t: Seq<char>) -> Seq<char> {
    PARAGRAPH_OPEN@ + t + PARAGRAPH_CLOSE@
}

/// The file name of page `n`.
pub open spec fn chapter_file(n: nat) -> Seq<char> {
    CHAPTER_PREFIX@ + decimal(n) + CHAPTER_SUFFIX@
}

/// The title of page `n`.
pub open spec fn chapter_title(n: nat) -> Seq<char> {
    CHAPTER_TITLE@ + decimal(n)
}

/// A choice in page markup: a link to the file of page `n`, its target's.
pub open spec fn link(choice: Seq<char>, n: nat) -> Seq<char> {
    LINK_OPEN@ + chapter_file(n) + LINK_TARGET_END@ + choice + LINK_CLOSE@
}

fn chapter_file_chars(n: usize) -> (r: Vec<char>)
    ensures
        r@ == chapter_file(n as nat),
{
    let mut v = chars_of(CHAPTER_PREFIX);
    extend(&mut v, &format_decimal(n));
    extend(&mut v, &chars_of(CHAPTER_SUFFIX));
    v
}

/// The file name of page `n`, the target of links to it.
pub fn chapter_file_name(n: usize) -> (r: String)
    ensures
        r@ == chapter_file(n as nat),
{
    string_of(&chapter_file_chars(n))
}

/// The title of page `n`.
pub fn chapter_title_text(n: usize) -> (r: String)
    ensures
        r@ == chapter_title(n as nat),
{
    let mut v = chars_of(CHAPTER_TITLE);
    extend(&mut v, &format_decimal(n));
    string_of(&v)
}

/// One line's effect on the pages, the last of which is being written.
pub open spec fn page_step(pages: Seq<Seq<char>>, l: LineView, table: Seq<(Seq<char>, nat)>) -> Result<Seq<Seq<char>>, Failure> {
    let last = pages.len() - 1;
    match l.kind {
        LineType::Undefined => Err(Failure::Malformed(l.source_line, malformed_reason(l.text))),
        LineType::Text => Ok(pages.update(last, pages[last] + paragraph(l.text))),
        LineType::Question => match lookup(table, l.value) {
            Some(n) => Ok(pages.update(last, pages[last] + link(l.key, n))),
            None => Err(Failure::Unresolved(l.value)),
        },
        LineType::Bookmark => Ok(pages.push(Seq::empty())),
        _ => Ok(pages),
    }
}

/// The pages of `doc`, with `table` giving the page of each bookmark.
pub open spec fn pages_of(doc: Seq<LineView>, table: Seq<(Seq<char>, nat)>) -> Result<Seq<Seq<char>>, Failure>
    decreases doc.len(),
{
    if doc.len() == 0 {
        Ok(seq![Seq::<char>::empty()])
    } else {
        match pages_of(doc.drop_last(), table) {
            Ok(p) => page_step(p, doc.last(), table),
            Err(e) => Err(e),
        }
    }
}

pub open spec fn cover_page(height: nat, width: nat) -> Seq<char> {
    COVER_HEAD@ + decimal(width) + SPACE@ + decimal(height) + COVER_VIEWBOX_END@ + decimal(height)
        + COVER_HEIGHT_END@ + decimal(width) + COVER_TAIL@
}

pub open spec fn title_page(title: Seq<char>, author: Seq<char>) -> Seq<char> {
    TITLE_HEAD@ + title + TITLE_MIDDLE@ + title + TITLE_AUTHOR@ + author + TITLE_TAIL@
}

pub open spec fn content_page(content: Seq<char>) -> Seq<char> {
    PAGE_HEAD@ + content + PAGE_TAIL@
}

pub open spec fn string_views(v: Seq<String>) -> Seq<Seq<char>> {
    v.map_values(|s: String| s@)
}

pub open spec fn vec_views(v: Seq<Vec<char>>) -> Seq<Seq<char>> {
    v.map_values(|s: Vec<char>| s@)
}

/// A failure of page assembly on a prefix is its failure on the whole.
proof fn lemma_pages_err_extends(doc: Seq<LineView>, table: Seq<(Seq<char>, nat)>, i: int)
    requires
        0 <= i <= doc.len(),
        pages_of(doc.take(i), table) is Err,
    ensures
        pages_of(doc, table) == pages_of(doc.take(i), table),
    decreases doc.len() - i,
{
    if i < doc.len() {
        assert(doc.take(i + 1).drop_last() =~= doc.take(i));
        lemma_pages_err_extends(doc, table, i + 1);
    } else {
        assert(doc.take(i) =~= doc);
    }
}

/// The pages of an e-book made from a script document.
pub struct EpubWriter {
    pub title: String,
    pub author: String,
    pub cover_path: String,
    pub page_content: Vec<String>,
    pub bookmark_table: Vec<(Vec<char>, usize)>,
}

impl EpubWriter {
    /// A writer with no pages.
    pub fn new(title: &str, author: &str, cover_path: &str) -> (r: EpubWriter)
        ensures
            r.title@ == title@,
            r.author@ == author@,
            r.cover_path@ == cover_path@,
            r.page_content@.len() == 0,
            r.bookmark_table@.len() == 0,
    {
        EpubWriter {
            title: string_of(&chars_of(title)),
            author: string_of(&chars_of(author)),
            cover_path: string_of(&chars_of(cover_path)),
            page_content: Vec::new(),
            bookmark_table: Vec::new(),
        }
    }

    /// Numbers the bookmarks of `input` in order, from page 1, adding them
    /// to the table; a name already there takes its new page, since lookup
    /// goes by the last entry.
    pub fn process_bookmark_table(&mut self, input: &Reader)
        ensures
            syms_view(final(self).bookmark_table@) == syms_view(old(self).bookmark_table@) + bookmark_pages(
                input.lines_view(),
            ),
            final(self).page_content@ == old(self).page_content@,
            final(self).title == old(self).title,
            final(self).author == old(self).author,
            final(self).cover_path == old(self).cover_path,
    {
        let ghost doc = input.lines_view();
        let ghost t0 = syms_view(self.bookmark_table@);
        let mut count: usize = 0;
        let mut i: usize = 0;
        assert(doc.take(0) =~= Seq::<LineView>::empty());
        assert(t0 + bookmark_pages(doc.take(0)) =~= t0);
        while i < input.lines.len()
            invariant
                i <= input.lines@.len(),
                doc == input.lines_view(),
                t0 == syms_view(old(self).bookmark_table@),
                syms_view(self.bookmark_table@) == t0 + bookmark_pages(doc.take(i as int)),
                count == bookmark_pages(doc.take(i as int)).len(),
                count <= i,
                self.page_content@ == old(self).page_content@,
                self.title == old(self).title,
                self.author == old(self).author,
                self.cover_path == old(self).cover_path,
            decreases input.lines@.len() - i,
        {
            assert(doc.take(i + 1).drop_last() =~= doc.take(i as int));
            assert(doc.take(i + 1).last() == input.lines@[i as int]@);
            if input.lines[i].type_ == LineType::Bookmark {
                let name = crate::text::slice(&input.lines[i].key, 0, input.lines[i].key.len());
                assert(name@ =~= input.lines@[i as int].key@);
                count = count + 1;
                let ghost before = self.bookmark_table@;
                self.bookmark_table.push((name, count));
                assert(syms_view(self.bookmark_table@) =~= syms_view(before).push((name@, count as nat)));
                assert(t0 + bookmark_pages(doc.take(i + 1)) =~= (t0 + bookmark_pages(doc.take(i as int))).push(
                    (name@, count as nat)));
            }
            i = i + 1;
        }
        assert(doc.take(i as int) =~= doc);
    }

    /// Writes the pages of `input`: paragraphs, and choices as links to the
    /// pages of their targets. Fails on a malformed line or a choice whose
    /// target is no bookmark, leaving the pages as they were.
    pub fn process_lines(&mut self, input: &Reader) -> (r: Result<(), CompileError>)
        ensures
            syms_view(final(self).bookmark_table@) == syms_view(old(self).bookmark_table@) + bookmark_pages(
                input.lines_view(),
            ),
            final(self).title == old(self).title,
            final(self).author == old(self).author,
            final(self).cover_path == old(self).cover_path,
            match pages_of(input.lines_view(), syms_view(final(self).bookmark_table@)) {
                Ok(p) => r is Ok && string_views(final(self).page_content@) == p,
                Err(e) => r matches Err(x) && x@ == e && final(self).page_content@ == old(self).page_content@,
            },
    {
        self.process_bookmark_table(input);
        let ghost doc = input.lines_view();
        let ghost table = syms_view(self.bookmark_table@);
        proof {
            assert(keys(table) =~= names(self.bookmark_table@));
        }
        let mut done: Vec<Vec<char>> = Vec::new();
        let mut cur: Vec<char> = Vec::new();
        let mut i: usize = 0;
        assert(doc.take(0) =~= Seq::<LineView>::empty());
        assert(vec_views(done@).push(cur@) =~= seq![Seq::<char>::empty()]);
        while i < input.lines.len()
            invariant
                i <= input.lines@.len(),
                doc == input.lines_view(),
                table == syms_view(self.bookmark_table@),
                table == syms_view(old(self).bookmark_table@) + bookmark_pages(doc),
                self.title == old(self).title,
                self.author == old(self).author,
                self.cover_path == old(self).cover_path,
                keys(table) == names(self.bookmark_table@),
                self.page_content@ == old(self).page_content@,
                pages_of(doc.take(i as int), table) == Ok::<Seq<Seq<char>>, Failure>(vec_views(done@).push(cur@)),
            decreases input.lines@.len() - i,
        {
            assert(doc.take(i + 1).drop_last() =~= doc.take(i as int));
            assert(doc.take(i + 1).last() == input.lines@[i as int]@);
            let l = &input.lines[i];
            let ghost before = vec_views(done@).push(cur@);
            match l.type_ {
                LineType::Undefined => {
                    let reason = if l.text.len() > 0 && l.text[0] == '+' {
                        Malformed::Question
                    } else {
                        Malformed::Constant
                    };
                    proof {
                        lemma_pages_err_extends(doc, table, i + 1);
                    }
                    return Err(CompileError::MalformedLine { line_number: l.source_line, reason });
                },
                LineType::Text => {
                    let mut piece = chars_of(PARAGRAPH_OPEN);
                    extend(&mut piece, &l.text);
                    extend(&mut piece, &chars_of(PARAGRAPH_CLOSE));
                    extend(&mut cur, &piece);
                    assert(vec_views(done@).push(cur@) =~= before.update(before.len() - 1, before.last() + paragraph(l.text@)));
                },
                LineType::Question => {
                    match find_entry(&self.bookmark_table, &l.value) {
                        Some(k) => {
                            let n = self.bookmark_table[k].1;
                            let mut piece = chars_of(LINK_OPEN);
                            extend(&mut piece, &chapter_file_chars(n));
                            extend(&mut piece, &chars_of(LINK_TARGET_END));
                            extend(&mut piece, &l.key);
                            extend(&mut piece, &chars_of(LINK_CLOSE));
                            extend(&mut cur, &piece);
                            assert(vec_views(done@).push(cur@) =~= before.update(before.len() - 1, before.last() + link(l.key@, n as nat)));
                        },
                        None => {
                            proof {
                                lemma_pages_err_extends(doc, table, i + 1);
                            }
                            return Err(CompileError::UnresolvedSymbol { name: string_of(&l.value) });
                        },
                    }
                },
                LineType::Bookmark => {
                    done.push(cur);
                    cur = Vec::new();
                    assert(vec_views(done@).push(cur@) =~= before.push(Seq::<char>::empty()));
                },
                _ => {},
            }
            i = i + 1;
        }
        assert(doc.take(i as int) =~= doc);
        done.push(cur);
        let mut pages: Vec<String> = Vec::new();
        let mut k: usize = 0;
        while k < done.len()
            invariant
                k <= done@.len(),
                string_views(pages@) == vec_views(done@).take(k as int),
            decreases done@.len() - k,
        {
            let s = string_of(&done[k]);
            let ghost before = pages@;
            pages.push(s);
            assert(string_views(pages@) =~= string_views(before).push(s@));
            assert(vec_views(done@).take(k + 1) =~= vec_views(done@).take(k as int).push(done@[k as int]@));
            k = k + 1;
        }
        assert(vec_views(done@).take(k as int) =~= vec_views(done@));
        self.page_content = pages;
        Ok(())
    }

    /// The cover page for an image of the given size.
    pub fn cover_builder(&self, height: u32, width: u32) -> (r: String)
        ensures
            r@ == cover_page(height as nat, width as nat),
    {
        let h = format_decimal(height as usize);
        let w = format_decimal(width as usize);
        let mut v = chars_of(COVER_HEAD);
        extend(&mut v, &w);
        extend(&mut v, &chars_of(SPACE));
        extend(&mut v, &h);
        extend(&mut v, &chars_of(COVER_VIEWBOX_END));
        extend(&mut v, &h);
        extend(&mut v, &chars_of(COVER_HEIGHT_END));
        extend(&mut v, &w);
        extend(&mut v, &chars_of(COVER_TAIL));
        string_of(&v)
    }

    /// The title page: the title and the author.
    pub fn title_builder(&self) -> (r: String)
        ensures
            r@ == title_page(self.title@, self.author@),
    {
        let t = chars_of(self.title.as_str());
        let mut v = chars_of(TITLE_HEAD);
        extend(&mut v, &t);
        extend(&mut v, &chars_of(TITLE_MIDDLE));
        extend(&mut v, &t);
        extend(&mut v, &chars_of(TITLE_AUTHOR));
        extend(&mut v, &chars_of(self.author.as_str()));
        extend(&mut v, &chars_of(TITLE_TAIL));
        string_of(&v)
    }

    /// A content page around `content`.
    pub fn page_builder(&self, content: &str) -> (r: String)
        ensures
            r@ == content_page(content@),
    {
        let mut v = chars_of(PAGE_HEAD);
        extend(&mut v, &chars_of(content));
        extend(&mut v, &chars_of(PAGE_TAIL));
        string_of(&v)
    }
}

} // verus!

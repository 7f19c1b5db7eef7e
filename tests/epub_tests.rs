use stevia::epub_writer::{chapter_file_name, chapter_title_text, EpubWriter};
use stevia::reader::Reader;
use stevia::writer::{CompileError, Malformed};

fn reader_of(text: &str) -> Reader {
    let mut reader = Reader::from_text(text);
    reader.parse_all_lines();
    reader
}

#[test]
fn epub_pages_and_links() {
    let reader = reader_of("Hello\n+ [Go] -> there\n=== there\nArrived\n-> END");
    let mut w = EpubWriter::new("Book", "Me", "cover.jpg");
    assert_eq!(w.process_lines(&reader), Ok(()));
    assert_eq!(
        w.page_content,
        vec![
            String::from("<p>Hello</p><p><a href=\"chapter_1.xhtml\">Go</a></p>"),
            String::from("<p>Arrived</p>"),
        ]
    );
}

#[test]
fn epub_bookmark_table_numbers_pages() {
    let reader = reader_of("=== a\nx\n=== b\ny");
    let mut w = EpubWriter::new("Book", "Me", "cover.jpg");
    w.process_bookmark_table(&reader);
    assert_eq!(w.bookmark_table, vec![(vec!['a'], 1), (vec!['b'], 2)]);
}

#[test]
fn epub_missing_target() {
    let reader = reader_of("+ [Go] -> nowhere");
    let mut w = EpubWriter::new("Book", "Me", "cover.jpg");
    assert_eq!(w.process_lines(&reader), Err(CompileError::UnresolvedSymbol { name: String::from("nowhere") }));
    assert!(w.page_content.is_empty());
}

#[test]
fn epub_malformed_line() {
    let reader = reader_of("ok\nCONST broken");
    let mut w = EpubWriter::new("Book", "Me", "cover.jpg");
    assert_eq!(w.process_lines(&reader), Err(CompileError::MalformedLine { line_number: 2, reason: Malformed::Constant }));
}

#[test]
fn epub_builders() {
    let w = EpubWriter::new("My Title", "An Author", "cover.jpg");
    let t = w.title_builder();
    assert!(t.contains("<title>My Title</title>"));
    assert!(t.contains("<h1>My Title</h1>\n\t<p>An Author</p>"));
    let c = w.cover_builder(480, 320);
    assert!(c.contains("viewBox=\"0 0 320 480\""));
    assert!(c.contains("<image height=\"480\" width=\"320\" xlink:href=\"cover.jpg\"/>"));
    let p = w.page_builder("<p>x</p>");
    assert!(p.ends_with("<body>\n    <p>x</p>\n</body>\n</html>"));
}

#[test]
fn epub_chapter_names() {
    assert_eq!(chapter_file_name(0), "chapter_0.xhtml");
    assert_eq!(chapter_file_name(12), "chapter_12.xhtml");
    assert_eq!(chapter_title_text(3), "Chapter 3");
}

#[test]
fn epub_bookmark_table_keeps_earlier_entries() {
    let reader = reader_of("=== a\nx\n=== b\ny\n=== a");
    let mut w = EpubWriter::new("Book", "Me", "cover.jpg");
    w.bookmark_table.push((vec!['z'], 7));
    w.process_bookmark_table(&reader);
    assert_eq!(
        w.bookmark_table,
        vec![(vec!['z'], 7), (vec!['a'], 1), (vec!['b'], 2), (vec!['a'], 3)]
    );
    assert_eq!(w.title, "Book");
}

use stevia::reader::{LineType, Reader};
use stevia::writer::Writer;

fn setup(input: &str) -> (Reader, Writer) {
    let mut reader = Reader::from_text(input);
    reader.parse_all_lines();

    let mut writer = Writer::new();
    let _ = writer.process_lines(&reader);
    (reader, writer)
}

// --- TEXT ---

#[test]
fn test_writer_print_one() {
    let (reader, writer) = setup("Hello world");

    assert_eq!(writer.output, "P;Hello world");

    assert_eq!(writer.index, 13);
}

#[test]
fn test_writer_print_two() {
    let (reader, writer) = setup(r#"Hello world
Ciao mondo"#);

    assert_eq!(writer.output, "P;Hello world|P;Ciao mondo");

    assert_eq!(writer.index, 26);
}

#[test]
fn test_writer_print_three() {
    let (reader, writer) = setup(r#"Hello world
Ciao mondo
Bonjour monde"#);

    assert_eq!(writer.output, "P;Hello world|P;Ciao mondo|P;Bonjour monde");

    assert_eq!(writer.index, 42);
}

// --- QUESTIONS ---

#[test]
fn test_writer_question_fake_jump_one() {
    let (reader, writer) = setup("+ [Hello world] -> example");

    assert_eq!(writer.output, "Q;Hello world;00000");

    assert_eq!(writer.relocations("example"), vec![14]);
}

#[test]
fn test_writer_question_fake_jump_two() {
    let (reader, writer) = setup("+ [Hello world] -> example
+ [Ciao mondo] -> sample");

    assert_eq!(writer.output, "Q;Hello world;00000;Ciao mondo;00000");

    assert_eq!(writer.relocations("example"), vec![14]);
    assert_eq!(writer.relocations("sample"), vec![31]);
}

#[test]
fn test_writer_question_fake_jump_and_print() {
    let (reader, writer) = setup("+ [Hello world] -> example
+ [Ciao mondo] -> sample
Bonjour monde");

    assert_eq!(
        writer.output,
        "Q;Hello world;00000;Ciao mondo;00000|P;Bonjour monde"
    );

    assert_eq!(writer.relocations("example"), vec![14]);
    assert_eq!(writer.relocations("sample"), vec![31]);
}

#[test]
fn test_writer_question_fake_jump_multiple() {
    let (reader, writer) = setup("+ [Hello world] -> example
+ [Ciao mondo] -> sample
Bonjour monde
+ [Hello world] -> example
+ [Ciao mondo] -> sample
");

    assert_eq!(
        writer.output,
        "Q;Hello world;00000;Ciao mondo;00000|P;Bonjour monde|Q;Hello world;00000;Ciao mondo;00000"
    );

    assert_eq!(writer.index, 89);

    assert_eq!(writer.relocations("example"), vec![14, 67]);
    assert_eq!(writer.relocations("sample"), vec![31, 84]);
}

#[test]
fn test_writer_question_one() {
    let (reader, writer) = setup("+ [Hello world] -> example
+ [Ciao mondo] -> sample
=== example
Hello world
=== sample
Ciao mondo
");

    assert_eq!(
        writer.output,
        "Q;Hello world;00037;Ciao mondo;00051|P;Hello world|P;Ciao mondo"
    );

    assert_eq!(writer.index, 63);

    assert_eq!(writer.relocations("example"), vec![14]);
    assert_eq!(writer.relocations("sample"), vec![31]);

    assert_eq!(writer.symbol("example"), Some(37));
    assert_eq!(writer.symbol("sample"), Some(51));
}

// --- END ---

#[test]
fn test_writer_end_one() {
    let (reader, writer) = setup("-> END");

    assert_eq!(writer.index, 2);

    assert_eq!(writer.output, "E;");
}

#[test]
fn test_writer_end_two() {
    let (reader, writer) = setup("Hello world
-> END");

    assert_eq!(writer.output, "P;Hello world|E;");

    assert_eq!(writer.index, 16);
}

// --- BOOKMARKS ---

#[test]
fn test_writer_bookmark_position_zero_one() {
    let (reader, writer) = setup("=== hello");

    assert_eq!(writer.index, 0);

    assert_eq!(writer.symbol("hello"), Some(0));
}

#[test]
fn test_writer_bookmark_position_zero_one_spaces() {
    let (reader, writer) = setup(" ===  hello");

    assert_eq!(writer.index, 0);

    assert_eq!(writer.symbol("hello"), Some(0));
}

#[test]
fn test_writer_bookmark_position_zero_two() {
    let (reader, writer) = setup("=== hello
=== world");

    assert_eq!(writer.index, 0);

    assert_eq!(writer.symbol("hello"), Some(0));
    assert_eq!(writer.symbol("world"), Some(0));
}

#[test]
fn test_writer_bookmark_position_zero_two_spaces() {
    let (reader, writer) = setup("   ===     hello
    ===     world");

    assert_eq!(writer.index, 0);

    assert_eq!(writer.symbol("hello"), Some(0));
    assert_eq!(writer.symbol("world"), Some(0));
}

#[test]
fn test_writer_bookmark_one() {
    let (reader, writer) = setup("Hello world
=== hello
Ciao mondo");

    assert_eq!(writer.output, "P;Hello world|P;Ciao mondo");

    assert_eq!(writer.index, 26);

    assert_eq!(writer.symbol("hello"), Some(14));
}

#[test]
fn test_writer_bookmark_two() {
    let (reader, writer) = setup("Hello world
=== hello
Ciao mondo
=== world
Bonjour monde");

    assert_eq!(writer.output, "P;Hello world|P;Ciao mondo|P;Bonjour monde");

    assert_eq!(writer.index, 42);

    assert_eq!(writer.symbol("hello"), Some(14));
    assert_eq!(writer.symbol("world"), Some(27));
}

// --- CONSTANTS ---

#[test]
fn test_writer_declare_constants_one() {
    let (reader, writer) = setup("CONST HELLO = \"World\"");

    assert_eq!(writer.index, 0);

    assert_eq!(reader.lines[0].type_, LineType::Constant);

    assert_eq!(writer.constant("HELLO"), Some(String::from("World")));
}

#[test]
fn test_writer_declare_constants_two() {
    let (reader, writer) = setup("CONST HELLO = \"World\"
CONST CIAO = \"Mondo\"");

    assert_eq!(writer.index, 0);

    assert_eq!(reader.lines[0].type_, LineType::Constant);
    assert_eq!(reader.lines[1].type_, LineType::Constant);

    assert_eq!(writer.constant("HELLO"), Some(String::from("World")));
    assert_eq!(writer.constant("CIAO"), Some(String::from("Mondo")));
}

#[test]
fn test_writer_declare_constants_one_space() {
    let (reader, writer) = setup("CONST  HELLO  =  \"World\"");

    assert_eq!(writer.index, 0);

    assert_eq!(reader.lines[0].type_, LineType::Constant);

    assert_eq!(writer.constant("HELLO"), Some(String::from("World")));
}

#[test]
fn test_writer_declare_constants_two_space() {
    let (reader, writer) = setup(" CONST  HELLO  =  \"World\"");

    assert_eq!(writer.index, 0);

    assert_eq!(reader.lines[0].type_, LineType::Constant);

    assert_eq!(writer.constant("HELLO"), Some(String::from("World")));
}

#[test]
fn test_writer_declare_constants_two_space_multiple() {
    let (reader, writer) = setup(" CONST  HELLO  =  \" World \"");

    assert_eq!(writer.index, 0);

    assert_eq!(reader.lines[0].type_, LineType::Constant);

    assert_eq!(writer.constant("HELLO"), Some(String::from("World")));
}

#[test]
fn test_writer_constants_one() {
    let (reader, writer) = setup("CONST HELLO = \"World\"
Hello {HELLO}");

    assert_eq!(writer.output, "P;Hello World");

    assert_eq!(writer.index, 13);

    assert_eq!(reader.lines[0].type_, LineType::Constant);
    assert_eq!(reader.lines[1].type_, LineType::Text);

    assert_eq!(writer.constant("HELLO"), Some(String::from("World")));
}

#[test]
fn test_writer_constants_two() {
    let (reader, writer) = setup("CONST HELLO = \"World\"
CONST CIAO = \"Mondo\"
Hello {HELLO} Ciao {CIAO}");

    assert_eq!(writer.output, "P;Hello World Ciao Mondo");

    assert_eq!(writer.index, 24);

    assert_eq!(reader.lines[0].type_, LineType::Constant);
    assert_eq!(reader.lines[1].type_, LineType::Constant);
    assert_eq!(reader.lines[2].type_, LineType::Text);

    assert_eq!(writer.constant("HELLO"), Some(String::from("World")));
    assert_eq!(writer.constant("CIAO"), Some(String::from("Mondo")));
}

// --- COMMENTS ---

#[test]
fn test_writer_comment_one() {
    let (reader, writer) = setup("// Hello world");

    assert_eq!(writer.output, "");

    assert_eq!(writer.index, 0);

    assert_eq!(reader.lines[0].type_, LineType::Comment);
}

#[test]
fn test_writer_comment_two() {
    let (reader, writer) = setup("// Hello world
// Ciao mondo");

    assert_eq!(writer.output, "");

    assert_eq!(writer.index, 0);

    assert_eq!(reader.lines[0].type_, LineType::Comment);
    assert_eq!(reader.lines[1].type_, LineType::Comment);
}

#[test]
fn test_writer_comment_and_text() {
    let (reader, writer) = setup("// Hello world
// Ciao mondo
Bonjour monde");

    assert_eq!(writer.output, "P;Bonjour monde");

    assert_eq!(writer.index, 15);

    assert_eq!(reader.lines[0].type_, LineType::Comment);
    assert_eq!(reader.lines[1].type_, LineType::Comment);
    assert_eq!(reader.lines[2].type_, LineType::Text);
}

// --- FUNCTIONAL TESTS ---

#[test]
fn functional_test_one() {
    let (reader, writer) = setup("Hello there

I'm a VN written in the Ink format

Do you like it?

-> END");

    assert_eq!(
        writer.output,
        "P;Hello there|P;I'm a VN written in the Ink format|P;Do you like it?|E;"
    );

    assert_eq!(writer.index, 71);

    assert_eq!(reader.lines[0].type_, LineType::Text);
    assert_eq!(reader.lines[1].type_, LineType::Text);
    assert_eq!(reader.lines[2].type_, LineType::Text);
    assert_eq!(reader.lines[3].type_, LineType::End);
}

#[test]
fn functional_test_two() {
    let (reader, writer) = setup("Hello there

I'm a VN written in the Ink format

Do you like it?

+ [Yes, I like it!] -> like
+ [No, I do not like it] -> hate

=== like

Thank you!

-> END

=== hate

Oh, I see

-> END");

    assert_eq!(writer.output, "P;Hello there|P;I'm a VN written in the Ink format|P;Do you like it?|Q;Yes, I like it!;00120;No, I do not like it;00136|P;Thank you!|E;|P;Oh, I see|E;");

    assert_eq!(writer.index, 150);

    assert_eq!(writer.symbol("like"), Some(120));
    assert_eq!(writer.symbol("hate"), Some(136));

    assert_eq!(writer.relocations("like"), vec![87]);
    assert_eq!(writer.relocations("hate"), vec![114]);

    assert_eq!(reader.lines[0].type_, LineType::Text);
    assert_eq!(reader.lines[1].type_, LineType::Text);
    assert_eq!(reader.lines[2].type_, LineType::Text);
    assert_eq!(reader.lines[3].type_, LineType::Question);
    assert_eq!(reader.lines[4].type_, LineType::Question);
    assert_eq!(reader.lines[5].type_, LineType::Bookmark);
    assert_eq!(reader.lines[6].type_, LineType::Text);
    assert_eq!(reader.lines[7].type_, LineType::End);
    assert_eq!(reader.lines[8].type_, LineType::Bookmark);
    assert_eq!(reader.lines[9].type_, LineType::Text);
    assert_eq!(reader.lines[10].type_, LineType::End);
}

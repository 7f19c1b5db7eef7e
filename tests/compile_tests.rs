use stevia::reader::{classify, LineType, Reader};
use stevia::writer::{compile, CompileError, Malformed, Writer};

fn output_of(source: &str) -> String {
    compile(source).expect("compiles").writer.output
}

fn chars(s: &str) -> Vec<char> {
    s.chars().collect()
}

#[test]
fn scenario_paragraph() {
    assert_eq!(output_of("Hello world"), "P;Hello world");
}

#[test]
fn scenario_forward_reference_left_unresolved() {
    let mut reader = Reader::from_text("+ [Hello world] -> example");
    reader.parse_all_lines();
    let mut writer = Writer::new();
    let r = writer.process_lines(&reader);
    assert_eq!(r, Err(CompileError::UnresolvedSymbol { name: String::from("example") }));
    assert_eq!(writer.output, "Q;Hello world;00000");
    assert_eq!(writer.relocations("example"), vec![14]);
}

#[test]
fn scenario_two_choices_resolved() {
    let c = compile("+ [Hello world] -> example\n+ [Ciao mondo] -> sample\n=== example\nHello world\n=== sample\nCiao mondo\n").unwrap();
    assert_eq!(c.writer.output, "Q;Hello world;00037;Ciao mondo;00051|P;Hello world|P;Ciao mondo");
    assert_eq!(c.writer.symbol("example"), Some(37));
    assert_eq!(c.writer.symbol("sample"), Some(51));
}

#[test]
fn scenario_end() {
    assert_eq!(output_of("-> END"), "E;");
}

#[test]
fn scenario_constant_substitution() {
    assert_eq!(output_of("CONST HELLO = \"World\"\nHello {HELLO}"), "P;Hello World");
}

#[test]
fn scenario_missing_target() {
    let r = compile("Start\n+ [Go] -> missing_target");
    assert_eq!(r.err(), Some(CompileError::UnresolvedSymbol { name: String::from("missing_target") }));
}

#[test]
fn determinism_same_source_same_output() {
    let src = "Hi\n+ [a] -> x\n+ [b] -> y\n=== x\nA\n=== y\nB\n-> END";
    assert_eq!(output_of(src), output_of(src));
}

#[test]
fn separator_split_and_join() {
    let out = output_of("Hi\n+ [a] -> x\n+ [b] -> y\n=== x\nA\n-> END\n=== y\nB\n-> END");
    let tokens: Vec<&str> = out.split('|').collect();
    assert!(tokens.iter().all(|t| !t.is_empty()));
    assert_eq!(tokens.join("|"), out);
    assert_eq!(tokens.len(), 6);
}

#[test]
fn offsets_point_at_targets() {
    let out = output_of("+ [a] -> x\n+ [b] -> y\n=== x\nAlpha\n=== y\nBeta");
    assert_eq!(out, "Q;a;00018;b;00026|P;Alpha|P;Beta");
    assert_eq!(&out[18..25], "P;Alpha");
    assert_eq!(&out[26..], "P;Beta");
}

#[test]
fn backward_reference_written_directly() {
    let c = compile("=== top\nHello\n+ [again] -> top").unwrap();
    assert_eq!(c.writer.output, "P;Hello|Q;again;00000");
    assert!(c.writer.relocations("top").is_empty());
}

#[test]
fn comments_and_constants_are_zero_width() {
    let with = output_of("// intro\nHi\n+ [a] -> x\n// between\n+ [b] -> x\nCONST K = \"v\"\n=== x\nEnd");
    let without = output_of("Hi\n+ [a] -> x\n+ [b] -> x\n=== x\nEnd");
    assert_eq!(with, without);
    assert_eq!(without, "P;Hi|Q;a;00023;b;00023|P;End");
}

#[test]
fn later_constant_wins() {
    let c = compile("CONST X = \"A\"\nCONST X = \"B\"\nsay {X}").unwrap();
    assert_eq!(c.writer.output, "P;say B");
    assert_eq!(c.writer.constant("X"), Some(String::from("B")));
}

#[test]
fn unknown_placeholder_left_literal() {
    assert_eq!(output_of("Hi {NOPE} and {"), "P;Hi {NOPE} and {");
}

#[test]
fn constant_in_choice_text() {
    let c = compile("CONST N = \"Bob\"\n+ [Talk to {N}] -> t\n=== t\nHi").unwrap();
    assert_eq!(c.writer.output, "Q;Talk to Bob;00020|P;Hi");
}

#[test]
fn malformed_question() {
    let r = compile("Hi\n\n+ no brackets -> x");
    assert_eq!(r.err(), Some(CompileError::MalformedLine { line_number: 3, reason: Malformed::Question }));
}

#[test]
fn malformed_constant() {
    let r = compile("CONST X \"v\"");
    assert_eq!(r.err(), Some(CompileError::MalformedLine { line_number: 1, reason: Malformed::Constant }));
}

#[test]
fn question_without_arrow_is_undefined() {
    let l = classify(&chars("+ [Hello]"), 4).unwrap();
    assert_eq!(l.type_, LineType::Undefined);
    assert_eq!(l.source_line, 4);
}

#[test]
fn classify_kinds_and_payloads() {
    assert!(classify(&chars("   \t "), 1).is_none());
    let q = classify(&chars("  + [Yes, sure] ->   there  "), 2).unwrap();
    assert_eq!(q.type_, LineType::Question);
    assert_eq!(q.key, chars("Yes, sure"));
    assert_eq!(q.value, chars("there"));
    let b = classify(&chars("=== name ==="), 3).unwrap();
    assert_eq!(b.type_, LineType::Bookmark);
    assert_eq!(b.key, chars("name"));
    let k = classify(&chars("CONST  A  =  \" v w \""), 4).unwrap();
    assert_eq!(k.type_, LineType::Constant);
    assert_eq!(k.key, chars("A"));
    assert_eq!(k.value, chars("v w"));
    assert_eq!(classify(&chars("// x"), 5).unwrap().type_, LineType::Comment);
    assert_eq!(classify(&chars(" -> END "), 6).unwrap().type_, LineType::End);
    assert_eq!(classify(&chars("-> ENDS"), 7).unwrap().type_, LineType::Text);
}

#[test]
fn duplicate_bookmark_first_wins() {
    let c = compile("=== a\nOne\n=== a\nTwo\n+ [go] -> a").unwrap();
    assert_eq!(c.writer.symbol("a"), Some(0));
}

#[test]
fn offsets_count_bytes() {
    let c = compile("+ [é] -> x\n=== x\nñ").unwrap();
    assert_eq!(c.writer.output, "Q;é;00011|P;ñ");
    assert_eq!(c.writer.relocations("x"), vec![5]);
    assert_eq!(c.writer.symbol("x"), Some(11));
    assert_eq!(c.writer.index, c.writer.output.len());
}

#[test]
fn address_past_five_digits() {
    let long = "x".repeat(100_000);
    let src = format!("+ [go] -> far\n{}\n=== far\nThere", long);
    let r = compile(&src);
    assert_eq!(r.err(), Some(CompileError::AddressOutOfRange { address: 100_014 }));
}

#[test]
fn crlf_lines() {
    assert_eq!(output_of("Hello\r\nWorld\r\n"), "P;Hello|P;World");
}

#[test]
fn empty_source() {
    let c = compile("").unwrap();
    assert_eq!(c.writer.output, "");
    assert_eq!(c.writer.index, 0);
    assert!(c.reader.lines.is_empty());
}

#[test]
fn later_constant_wins_across_lines() {
    assert_eq!(
        output_of("CONST X = \"A\"\nHi\nCONST X = \"B\"\nValue {X}"),
        "P;Hi|P;Value B"
    );
}

#[test]
fn deleting_comment_and_constant_lines_keeps_output() {
    let with = output_of("// title\n+ [go] -> x\nCONST K = \"v\"\n// note\n=== x\nThere\n-> END");
    let without = output_of("+ [go] -> x\n=== x\nThere\n-> END");
    assert_eq!(with, without);
    assert_eq!(without, "Q;go;00011|P;There|E;");
}

#[test]
fn bar_in_target_name_keeps_tokens_whole() {
    let out = output_of("+ [a] -> x|y\n=== x|y\nEnd");
    assert_eq!(out, "Q;a;00010|P;End");
    assert!(out.split('|').all(|t| !t.is_empty()));
}

#[test]
fn bookmark_address_is_next_token() {
    let out = output_of("Intro\n=== here\n// nothing yet\nCONST A = \"b\"\nNext");
    let c = compile("Intro\n=== here\n// nothing yet\nCONST A = \"b\"\nNext").unwrap();
    let a = c.writer.symbol("here").unwrap();
    assert_eq!(a, 8);
    assert_eq!(&out[a..], "P;Next");
}

use configset::bytes::{same_bytes, scan, Class};
use configset::directive::Directive;
use configset::grammar::ParseFault;
use configset::key::normalized;
use configset::parser::{parse, SyntaxError};

fn value(key: &str, text: &[u8], line: usize) -> Directive {
    Directive { key: key.as_bytes().to_vec(), value: Some(text.to_vec()), file: 0, line }
}

fn bare(key: &str, line: usize) -> Directive {
    Directive { key: key.as_bytes().to_vec(), value: None, file: 0, line }
}

fn fault(line: usize, fault: ParseFault) -> Result<Vec<Directive>, SyntaxError> {
    Err(SyntaxError { line, fault })
}

#[test]
fn empty_text_has_no_directives() {
    assert_eq!(parse(b"", 0), Ok(vec![]));
    assert_eq!(parse(b"\n\n  \t\n", 0), Ok(vec![]));
    assert_eq!(parse(b"# only a comment", 0), Ok(vec![]));
    assert_eq!(parse(b"[section]\n", 0), Ok(vec![]));
}

#[test]
fn section_and_variables() {
    let text = b"[core]\n\tbare = true\n\teditor = vi\n[user]\n\tname = A U Thor\n";
    assert_eq!(
        parse(text, 0),
        Ok(vec![
            value("core.bare", b"true", 2),
            value("core.editor", b"vi", 3),
            value("user.name", b"A U Thor", 5),
        ])
    );
}

#[test]
fn directives_carry_the_number_of_their_file() {
    let found = parse(b"[a]\nb = 1\nc\n", 7).unwrap();
    assert_eq!(found.len(), 2);
    assert_eq!(found[0].file, 7);
    assert_eq!(found[1].file, 7);
}

#[test]
fn names_fold_to_lower_case() {
    assert_eq!(
        parse(b"[CoRe]\n\tAutoCRLF = Input\n\tfoo-Bar2 = x\n", 0),
        Ok(vec![value("core.autocrlf", b"Input", 2), value("core.foo-bar2", b"x", 3)])
    );
}

#[test]
fn subsection_keeps_its_case() {
    assert_eq!(
        parse(b"[Remote \"Origin\"]\n\tUrl = x\n", 0),
        Ok(vec![value("remote.Origin.url", b"x", 2)])
    );
    assert_eq!(
        parse(b"[branch   \t\"My Branch\"]\nmerge = y\n", 0),
        Ok(vec![value("branch.My Branch.merge", b"y", 2)])
    );
    assert_eq!(parse(b"[a \"\"]\nb = c\n", 0), Ok(vec![value("a..b", b"c", 2)]));
}

#[test]
fn subsection_escapes() {
    assert_eq!(
        parse(b"[a \"x\\\"y\\\\z\\w\"]\nb = c\n", 0),
        Ok(vec![value("a.x\"y\\zw.b", b"c", 2)])
    );
    assert_eq!(parse(b"[a \"x]y#z\"]\nb\n", 0), Ok(vec![bare("a.x]y#z.b", 2)]));
}

#[test]
fn dotted_header_folds_to_lower_case() {
    assert_eq!(
        parse(b"[Branch.Main]\n\tmerge = refs/heads/Main\n", 0),
        Ok(vec![value("branch.main.merge", b"refs/heads/Main", 2)])
    );
}

#[test]
fn comments_run_to_the_end_of_the_line() {
    let text = b"# one\n; two\n[a] # three\n\tb = 1 # four\n\tc = 2;five\n\t# six\n\td = 3\n";
    assert_eq!(
        parse(text, 0),
        Ok(vec![value("a.b", b"1", 4), value("a.c", b"2", 5), value("a.d", b"3", 7)])
    );
}

#[test]
fn quotes_keep_what_they_hold() {
    assert_eq!(parse(b"[a]\nb = \"x # y ; z\"\n", 0), Ok(vec![value("a.b", b"x # y ; z", 2)]));
    assert_eq!(parse(b"[a]\nb = \"  pad  \"  \n", 0), Ok(vec![value("a.b", b"  pad  ", 2)]));
    assert_eq!(
        parse(b"[a]\nb = one \"two  three\" four\n", 0),
        Ok(vec![value("a.b", b"one two  three four", 2)])
    );
    assert_eq!(parse(b"[a]\nb = \"\"\n", 0), Ok(vec![value("a.b", b"", 2)]));
    assert_eq!(parse(b"[a]\nb = a\"b\"c\n", 0), Ok(vec![value("a.b", b"abc", 2)]));
}

#[test]
fn escapes_in_values() {
    assert_eq!(
        parse(b"[a]\nb = x\\ty\\nz\\bw\\\\v\\\"u\n", 0),
        Ok(vec![value("a.b", b"x\ty\nz\x08w\\v\"u", 2)])
    );
    assert_eq!(parse(b"[a]\nb = \"q\\\"r\"\n", 0), Ok(vec![value("a.b", b"q\"r", 2)]));
    assert_eq!(parse(b"[a]\nb = x\\t\n", 0), Ok(vec![value("a.b", b"x\t", 2)]));
}

#[test]
fn white_space_around_a_value_is_dropped() {
    assert_eq!(parse(b"[a]\nb =   x y  \t\n", 0), Ok(vec![value("a.b", b"x y", 2)]));
    assert_eq!(parse(b"[a]\nb=x\n", 0), Ok(vec![value("a.b", b"x", 2)]));
    assert_eq!(parse(b"[a]\nb \t =\tx  \ty\n", 0), Ok(vec![value("a.b", b"x  \ty", 2)]));
    assert_eq!(parse(b"[a]\nb =\n", 0), Ok(vec![value("a.b", b"", 2)]));
    assert_eq!(parse(b"[a]\nb =    \n", 0), Ok(vec![value("a.b", b"", 2)]));
    assert_eq!(parse(b"[a]\nb = x", 0), Ok(vec![value("a.b", b"x", 2)]));
}

#[test]
fn backslash_joins_lines() {
    assert_eq!(
        parse(b"[a]\nb = one \\\n  two\nc = 3\n", 0),
        Ok(vec![value("a.b", b"one   two", 2), value("a.c", b"3", 4)])
    );
    assert_eq!(parse(b"[a]\nb = one\\\ntwo\n", 0), Ok(vec![value("a.b", b"onetwo", 2)]));
    assert_eq!(parse(b"[a]\nb = one \\\n", 0), Ok(vec![value("a.b", b"one ", 2)]));
    assert_eq!(
        parse(b"[a]\nb = \"one \\\ntwo\"\n", 0),
        Ok(vec![value("a.b", b"one two", 2)])
    );
    assert_eq!(parse(b"[a]\nb = one\\\r\ntwo\r\n", 0), Ok(vec![value("a.b", b"onetwo", 2)]));
}

#[test]
fn bare_names_have_no_value() {
    assert_eq!(
        parse(b"[a]\nb\nc   \nd", 0),
        Ok(vec![bare("a.b", 2), bare("a.c", 3), bare("a.d", 4)])
    );
}

#[test]
fn header_and_variable_on_one_line() {
    assert_eq!(
        parse(b"[a] b = 1\n[c \"d\"] e\n", 0),
        Ok(vec![value("a.b", b"1", 1), bare("c.d.e", 2)])
    );
}

#[test]
fn byte_order_mark_is_skipped() {
    assert_eq!(parse(b"\xEF\xBB\xBF[a]\nb = 1\n", 0), Ok(vec![value("a.b", b"1", 2)]));
    assert_eq!(parse(b"\xEF\xBB\xBF", 0), Ok(vec![]));
    assert_eq!(parse(b"\xEF\xBB[a]\n", 0), fault(1, ParseFault::Name));
}

#[test]
fn carriage_returns_are_white_space() {
    assert_eq!(
        parse(b"[a]\r\nb = 1\r\nc\r\n# x\r\nd = \"e\"\r\n", 0),
        Ok(vec![value("a.b", b"1", 2), bare("a.c", 3), value("a.d", b"e", 5)])
    );
}

#[test]
fn values_may_hold_any_utf8() {
    let text = "[a]\nb = gr\u{fc}n \u{1F600}\n";
    assert_eq!(
        parse(text.as_bytes(), 0),
        Ok(vec![value("a.b", "gr\u{fc}n \u{1F600}".as_bytes(), 2)])
    );
}

#[test]
fn value_that_is_not_utf8_is_refused() {
    assert_eq!(parse(b"[a]\nok = 1\nb = \xff\xfe\n", 0), fault(3, ParseFault::Encoding));
    assert_eq!(parse(b"[a]\nb = \xc3\n", 0), fault(2, ParseFault::Encoding));
    assert_eq!(parse(b"[a]\nb = \xed\xa0\x80\n", 0), fault(2, ParseFault::Encoding));
    // Outside a value such bytes are not looked at.
    assert_eq!(parse(b"[a]\n# \xff\nb = 1 ; \xff\n", 0), Ok(vec![value("a.b", b"1", 3)]));
}

#[test]
fn malformed_headers() {
    assert_eq!(parse(b"[a\nb = 1\n", 0), fault(1, ParseFault::Header));
    assert_eq!(parse(b"[a", 0), fault(1, ParseFault::Header));
    assert_eq!(parse(b"[", 0), fault(1, ParseFault::Header));
    assert_eq!(parse(b"[]\n", 0), fault(1, ParseFault::Header));
    assert_eq!(parse(b"[ \"x\"]\n", 0), fault(1, ParseFault::Header));
    assert_eq!(parse(b"[a b]\n", 0), fault(1, ParseFault::Header));
    assert_eq!(parse(b"[a_b]\n", 0), fault(1, ParseFault::Header));
    assert_eq!(parse(b"[a \"x]\n", 0), fault(1, ParseFault::Header));
    assert_eq!(parse(b"[a \"x\n\"]\n", 0), fault(1, ParseFault::Header));
    assert_eq!(parse(b"[a \"x\\", 0), fault(1, ParseFault::Header));
    assert_eq!(parse(b"\n[a]\n\n[b \"c\" ]\n", 0), fault(4, ParseFault::Header));
    assert_eq!(parse(b"[a]\n[b \"c\"x]\n", 0), fault(2, ParseFault::Header));
}

#[test]
fn variable_before_any_header() {
    assert_eq!(parse(b"b = 1\n", 0), fault(1, ParseFault::NoSection));
    assert_eq!(parse(b"# c\n\nb\n[a]\n", 0), fault(3, ParseFault::NoSection));
}

#[test]
fn malformed_names() {
    assert_eq!(parse(b"[a]\n1b = 2\n", 0), fault(2, ParseFault::Name));
    assert_eq!(parse(b"[a]\n= 2\n", 0), fault(2, ParseFault::Name));
    assert_eq!(parse(b"[a]\n\n-b\n", 0), fault(3, ParseFault::Name));
    assert_eq!(parse(b"[a]\nb c = 2\n", 0), fault(2, ParseFault::Name));
    assert_eq!(parse(b"[a]\nb_c = 2\n", 0), fault(2, ParseFault::Name));
    assert_eq!(parse(b"[a]\nb # c\n", 0), fault(2, ParseFault::Name));
    assert_eq!(parse(b"[a]\nb.c = 2\n", 0), fault(2, ParseFault::Name));
    assert_eq!(parse(b"]\n", 0), fault(1, ParseFault::Name));
}

#[test]
fn open_quotes() {
    assert_eq!(parse(b"[a]\nb = \"x\n", 0), fault(2, ParseFault::Quote));
    assert_eq!(parse(b"[a]\nb = \"x", 0), fault(2, ParseFault::Quote));
    assert_eq!(parse(b"[a]\nb = x\"\nc = \"\n", 0), fault(2, ParseFault::Quote));
    assert_eq!(parse(b"[a]\nb = \"one \\\ntwo\n", 0), fault(3, ParseFault::Quote));
    assert_eq!(parse(b"[a]\nb = \"", 0), fault(2, ParseFault::Quote));
}

#[test]
fn unknown_escapes() {
    assert_eq!(parse(b"[a]\n\nb = x\\q\n", 0), fault(3, ParseFault::Escape));
    assert_eq!(parse(b"[a]\nb = one \\\n two \\q\n", 0), fault(3, ParseFault::Escape));
    assert_eq!(parse(b"[a]\nb = x\\", 0), fault(2, ParseFault::Escape));
    assert_eq!(parse(b"[a]\nb = \\r\n", 0), fault(2, ParseFault::Escape));
    assert_eq!(parse(b"[a]\nb = \"\\'\"\n", 0), fault(2, ParseFault::Escape));
}

#[test]
fn first_fault_is_reported() {
    assert_eq!(parse(b"[a]\nb = \\q\n[c\n", 0), fault(2, ParseFault::Escape));
    assert_eq!(parse(b"[a\nb = \\q\n", 0), fault(1, ParseFault::Header));
}

#[test]
fn normalized_folds_section_and_name() {
    assert_eq!(normalized(b"Core.Bare"), b"core.bare".to_vec());
    assert_eq!(normalized(b"Remote.Origin.URL"), b"remote.Origin.url".to_vec());
    assert_eq!(normalized(b"URL.Https://A.B/.InsteadOf"), b"url.Https://A.B/.insteadof".to_vec());
    assert_eq!(normalized(b"NoDot"), b"nodot".to_vec());
    assert_eq!(normalized(b""), Vec::<u8>::new());
    assert_eq!(normalized(b".A."), b".A.".to_vec());
    assert_eq!(normalized(b"A."), b"a.".to_vec());
    assert_eq!(normalized(b".A"), b".a".to_vec());
}

#[test]
fn scan_runs_over_a_class() {
    assert_eq!(scan(b"abc-1 = x", 0, Class::Name), 5);
    assert_eq!(scan(b"abc-1 = x", 5, Class::Name), 5);
    assert_eq!(scan(b"a.b]", 0, Class::Section), 3);
    assert_eq!(scan(b"x \t\r\ny", 1, Class::Blank), 4);
    assert_eq!(scan(b"x # y\nz", 2, Class::InLine), 5);
    assert_eq!(scan(b"abc", 0, Class::NotDot), 3);
    assert_eq!(scan(b"~bob/x", 1, Class::NotSlash), 4);
    assert_eq!(scan(b"abc", 3, Class::Name), 3);
}

#[test]
fn same_bytes_compares() {
    assert!(same_bytes(b"abc", b"abc"));
    assert!(same_bytes(b"", b""));
    assert!(!same_bytes(b"abc", b"abd"));
    assert!(!same_bytes(b"abc", b"ab"));
    assert!(!same_bytes(b"", b"a"));
}

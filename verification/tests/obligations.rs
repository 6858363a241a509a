use multifractal_workflow::case_text::CaseTextRefused;
use multifractal_workflow::obligations::{derive_obligations_from_dump, text_lines_of};

const SUBJECT: &str = "https://cases.example.org/case/1";
const PRED: &str = "https://cases.example.org/vocab#hasObligation";

#[test]
fn lines_split_like_str_lines() {
    let s = "foo\r\nbar\n\nbaz\r";
    let expected: Vec<String> = s.lines().map(str::to_string).collect();
    assert_eq!(text_lines_of(s), expected);
    assert_eq!(text_lines_of(""), Vec::<String>::new());
    assert_eq!(text_lines_of("a\n"), vec!["a".to_string()]);
    assert_eq!(text_lines_of("\n"), vec!["".to_string()]);
}

#[test]
fn obligations_are_read_sorted_and_without_repeats() {
    let dump = format!(
        "<{SUBJECT}> <{PRED}> <https://cases.example.org/vocab#Screening>.\n\
         <{SUBJECT}> <https://cases.example.org/vocab#other> <urn:x#Nope>.\n\
         <{SUBJECT}> <{PRED}> <https://cases.example.org/vocab#Audit>.\r\n\
         <urn:someone-else> <{PRED}> <https://cases.example.org/vocab#Elsewhere>.\n\
         <{SUBJECT}> <{PRED}> <https://cases.example.org/vocab#Audit>.\n"
    );
    let d = derive_obligations_from_dump(&dump, SUBJECT, PRED).unwrap();
    assert_eq!(d.local_names, vec!["Audit".to_string(), "Screening".to_string()]);
    let expected = format!(
        "<{SUBJECT}> <{PRED}> <https://cases.example.org/vocab#Screening>.\n\
         <{SUBJECT}> <{PRED}> <https://cases.example.org/vocab#Audit>.\n\
         <{SUBJECT}> <{PRED}> <https://cases.example.org/vocab#Audit>.\n"
    );
    assert_eq!(d.turtle, expected);
}

#[test]
fn no_obligation_is_refused() {
    let dump = format!("<{SUBJECT}> <https://cases.example.org/vocab#other> <urn:x#Nope>.\n");
    assert_eq!(
        derive_obligations_from_dump(&dump, SUBJECT, PRED),
        Err(CaseTextRefused::NoObligationsDerivedForCase { subject: SUBJECT.to_string() })
    );
}

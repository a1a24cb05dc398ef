// The inflection dictionary, loaded from tab-separated lexicon text: a
// Czech adjective paradigm, with analyze/inflect/features lookups.

use wordseg::errors::DictionaryLoadError;
use wordseg::unimorph::Unimorph;

fn paradigm_tsv() -> String {
    [
        "afgh\u{00E1}nsk\u{00FD}\tafgh\u{00E1}nsk\u{00FD}\tADJ;NOM;MASC;SG",
        "afgh\u{00E1}nsk\u{00FD}\tafgh\u{00E1}nsk\u{00E9}ho\tADJ;GEN;MASC;SG",
        "afgh\u{00E1}nsk\u{00FD}\tafgh\u{00E1}nsk\u{00E9}mu\tADJ;DAT;MASC;SG",
        "afgh\u{00E1}nsk\u{00FD}\tafgh\u{00E1}nsk\u{00E9}m\tADJ;LOC;MASC;SG",
        "afgh\u{00E1}nsk\u{00FD}\tafgh\u{00E1}nsk\u{00FD}m\tADJ;INS;MASC;SG",
        "afgh\u{00E1}nsk\u{00FD}\tafgh\u{00E1}nsk\u{00E1}\tADJ;NOM;FEM;SG",
        "afgh\u{00E1}nsk\u{00FD}\tafgh\u{00E1}nsk\u{00E9}\tADJ;GEN;FEM;SG",
        "afgh\u{00E1}nsk\u{00FD}\tafgh\u{00E1}nskou\tADJ;ACC;FEM;SG",
        "afgh\u{00E1}nsk\u{00FD}\tafgh\u{00E1}nsk\u{00FD}ch\tADJ;GEN;MASC;PL",
        "afgh\u{00E1}nsk\u{00FD}\tafgh\u{00E1}nsk\u{00FD}mi\tADJ;INS;MASC;PL",
        "afgh\u{00E1}nsk\u{00FD}\tafgh\u{00E1}n\u{0161}t\u{00ED}\tADJ;NOM;MASC;PL",
    ]
    .join("\n")
}

fn load() -> Unimorph {
    let mut unimorph = Unimorph::new();
    unimorph.init(&paradigm_tsv()).unwrap();
    unimorph
}

#[test]
fn test_inflect() {
    let unimorph = load();

    let mut forms = unimorph.inflect("afgh\u{00E1}nsk\u{00FD}", "");

    forms.sort();

    assert_eq!(
        forms,
        vec![
            "afgh\u{00E1}nskou",
            "afgh\u{00E1}nsk\u{00E1}",
            "afgh\u{00E1}nsk\u{00E9}",
            "afgh\u{00E1}nsk\u{00E9}ho",
            "afgh\u{00E1}nsk\u{00E9}m",
            "afgh\u{00E1}nsk\u{00E9}mu",
            "afgh\u{00E1}nsk\u{00FD}",
            "afgh\u{00E1}nsk\u{00FD}ch",
            "afgh\u{00E1}nsk\u{00FD}m",
            "afgh\u{00E1}nsk\u{00FD}mi",
            "afgh\u{00E1}n\u{0161}t\u{00ED}"
        ]
    );
}

#[test]
fn test_inflect_with_features() {
    let unimorph = load();

    let mut forms = unimorph.inflect("afgh\u{00E1}nsk\u{00FD}", "ADJ;GEN;FEM;SG");

    forms.sort();

    assert_eq!(forms, vec!["afgh\u{00E1}nsk\u{00E9}"])
}

#[test]
fn test_analyze() {
    let unimorph = load();

    let mut lemmas = unimorph.analyze("afgh\u{00E1}nskou");

    lemmas.sort();

    assert_eq!(lemmas, vec!["afgh\u{00E1}nsk\u{00FD}"]);
}

#[test]
fn test_features() {
    let unimorph = load();

    let mut features = unimorph.features("afgh\u{00E1}nsk\u{00FD}", "afgh\u{00E1}nskou");

    features.sort();

    assert_eq!(features, vec!["ADJ;ACC;FEM;SG"]);
}

#[test]
fn test_analyze_unknown_form() {
    let unimorph = load();
    let lemmas = unimorph.analyze("unrelated");
    assert!(lemmas.is_empty());
}

#[test]
fn test_features_absent_pair() {
    let unimorph = load();
    let features = unimorph.features("afgh\u{00E1}nsk\u{00FD}", "unrelated");
    assert!(features.is_empty());
}

#[test]
fn test_features_insertion_order() {
    let mut unimorph = Unimorph::new();
    unimorph
        .init("walk\twalks\tV;3;SG;PRS\nwalk\twalks\tN;PL")
        .unwrap();
    // Multiple feature rows for one (lemma, form) pair keep insertion order.
    assert_eq!(
        unimorph.features("walk", "walks"),
        vec!["V;3;SG;PRS", "N;PL"]
    );
}

#[test]
fn test_init_unparseable_text() {
    let mut unimorph = Unimorph::new();
    // Rows of unequal length are not well-formed tab-separated text.
    let err = unimorph.init("a\tb\tc\nx\ty").unwrap_err();
    assert_eq!(err, DictionaryLoadError::Parse);
    assert!(unimorph.analyze("b").is_empty());
}

#[test]
fn test_init_malformed_row() {
    let mut unimorph = Unimorph::new();
    let err = unimorph.init("only\ttwo").unwrap_err();
    assert_eq!(err, DictionaryLoadError::MalformedRow);
    // The failed load left the dictionary unchanged.
    assert!(unimorph.analyze("two").is_empty());
}

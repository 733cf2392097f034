use skkserv_compound::dictionary::{Candidate, DictionarySource, ParsedEntry};
use skkserv_compound::generator::{generate, CompoundGeneratorConfig};
use skkserv_compound::loader::{build_snapshot, snapshot_from_texts};
use skkserv_compound::parser::{parse, parse_line, trailing_okuri};
use skkserv_compound::snapshot::DictionarySnapshot;

fn nashi(reading: &str, candidates: &[&str]) -> ParsedEntry {
    ParsedEntry::new(
        reading.to_string(),
        candidates.iter().map(|s| s.to_string()).collect(),
    )
}

fn listed(cs: &[Candidate]) -> Vec<(&str, DictionarySource)> {
    cs.iter().map(|c| (c.text.as_str(), c.source)).collect()
}

#[test]
fn user_texts_then_unseen_system_texts() {
    let snap = build_snapshot(
        &[nashi("か", &["蚊", "化"]), nashi("か", &["蚊", "科"])],
        &[nashi("か", &["課", "化"]), nashi("か", &["果"])],
    );
    assert_eq!(
        listed(snap.candidates("か")),
        vec![
            ("蚊", DictionarySource::User),
            ("化", DictionarySource::User),
            ("科", DictionarySource::User),
            ("課", DictionarySource::System),
            ("果", DictionarySource::System),
        ]
    );
}

#[test]
fn candidate_lists_hold_each_text_once() {
    let snap = snapshot_from_texts(
        "あ /亜/阿/亜/\nあ /阿/\n",
        &["あ /唖/亜/\n".to_string(), "あ /唖/吾/\n".to_string()],
    );
    let texts: Vec<&str> = snap.candidates("あ").iter().map(|c| c.text.as_str()).collect();
    assert_eq!(texts, vec!["亜", "阿", "唖", "吾"]);
}

#[test]
fn unknown_reading_has_no_candidates() {
    let snap = build_snapshot(&[nashi("あ", &["亜"])], &[]);
    assert!(snap.candidates("い").is_empty());
    assert!(snap.candidates("").is_empty());
    assert!(DictionarySnapshot::empty().candidates("あ").is_empty());
}

#[test]
fn parsed_entries_have_clean_candidates() {
    let entries = parse("か /化;接尾辞/蚊/化/\n;; comment\nき /;only/\nく /九/\r\n");
    assert_eq!(entries.len(), 2);
    assert_eq!(entries[0].candidates, vec!["化".to_string(), "蚊".to_string()]);
    assert_eq!(entries[1].reading, "く");
    for e in &entries {
        assert!(!e.reading.is_empty() && !e.reading.contains(' '));
        for c in &e.candidates {
            assert!(!c.is_empty() && !c.contains('/') && !c.contains(';'));
        }
    }
}

#[test]
fn parse_line_edge_cases() {
    assert_eq!(parse_line(""), None);
    assert_eq!(parse_line(" /a/"), None);
    assert_eq!(parse_line("a //"), None);
    assert_eq!(parse_line("a /"), None);
    assert_eq!(parse_line("a b/"), None);
    let e = parse_line("おくr /送/\r").unwrap();
    assert!(e.is_okuri_ari);
    assert_eq!(e.candidates, vec!["送".to_string()]);
}

#[test]
fn trailing_okuri_cases() {
    assert_eq!(trailing_okuri("おくr"), Some('r'));
    assert_eq!(trailing_okuri("r"), None);
    assert_eq!(trailing_okuri("abr"), None);
    assert_eq!(trailing_okuri("おく"), None);
    assert_eq!(trailing_okuri(""), None);
}

#[test]
fn generated_texts_are_distinct_and_capped() {
    let snap = build_snapshot(
        &[],
        &[
            nashi("あ", &["x", "xy"]),
            nashi("い", &["yz", "z"]),
            nashi("あい", &["q"]),
        ],
    );
    let out = generate("あい", &snap, CompoundGeneratorConfig::default(), None);
    assert_eq!(out, vec!["xyz".to_string(), "xz".to_string(), "xyyz".to_string()]);
    let capped = generate("あい", &snap, CompoundGeneratorConfig::new(2), None);
    assert_eq!(capped, out[..2].to_vec());
    assert!(generate("あい", &snap, CompoundGeneratorConfig::new(0), None).is_empty());
    assert!(generate("あ", &snap, CompoundGeneratorConfig::default(), None).is_empty());
}

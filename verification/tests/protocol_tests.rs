use skkserv_compound::dictionary::ParsedEntry;
use skkserv_compound::generator::CompoundGeneratorConfig;
use skkserv_compound::loader::{build_snapshot, decode_with_fallback, DictionaryLoaderError};
use skkserv_compound::reindex::{worker_action, WorkerAction, WorkerEvent};
use skkserv_compound::server::{
    extract_messages, reply_line, response_for, sanitize_candidate_for_wire, sanitize_yomi,
    IncomingCharset, OpcodeResult, SkkServer,
};
use skkserv_compound::store::DictionaryStore;

fn nashi(reading: &str, candidates: &[&str]) -> ParsedEntry {
    ParsedEntry::new(
        reading.to_string(),
        candidates.iter().map(|s| s.to_string()).collect(),
    )
}

fn euc_jp(text: &str) -> Vec<u8> {
    let (cow, _enc, had_errors) = encoding_rs::EUC_JP.encode(text);
    assert!(!had_errors);
    cow.into_owned()
}

#[test]
fn charset_names() {
    assert_eq!(IncomingCharset::Utf8.name(), "UTF-8");
    assert_eq!(IncomingCharset::EucJp.name(), "EUC-JP");
}

#[test]
fn utf8_decode_rejects_malformed_bytes() {
    assert_eq!(IncomingCharset::Utf8.decode(&[0xff, 0x41]), None);
    assert_eq!(IncomingCharset::Utf8.decode(&[0xe3, 0x81]), None);
    assert_eq!(
        IncomingCharset::Utf8.decode("あい".as_bytes()),
        Some("あい".to_string())
    );
    assert_eq!(IncomingCharset::Utf8.decode(&[]), Some(String::new()));
}

#[test]
fn euc_jp_decode_maps_bytes_to_text() {
    let bytes = euc_jp("あ");
    assert_eq!(bytes, vec![0xa4, 0xa2]);
    assert_eq!(IncomingCharset::EucJp.decode(&bytes), Some("あ".to_string()));
    // A lone lead byte is malformed.
    assert_eq!(IncomingCharset::EucJp.decode(&[0xa4]), None);
    // The same bytes are not UTF-8.
    assert_eq!(IncomingCharset::Utf8.decode(&bytes), None);
}

#[test]
fn dictionary_bytes_fall_back_to_euc_jp() {
    assert_eq!(
        decode_with_fallback("か /化/\n".as_bytes(), "a.dict"),
        Ok("か /化/\n".to_string())
    );
    assert_eq!(
        decode_with_fallback(&euc_jp("か /化/\n"), "b.dict"),
        Ok("か /化/\n".to_string())
    );
    assert_eq!(
        decode_with_fallback(&[0xa4], "c.dict"),
        Err(DictionaryLoaderError::EncodingNotRecognized("c.dict".to_string()))
    );
}

#[test]
fn wire_sanitizer_drops_framing_characters() {
    assert_eq!(sanitize_candidate_for_wire("a/b\nc\rd\0e"), "abcde");
    assert_eq!(sanitize_candidate_for_wire("清掃"), "清掃");
    assert_eq!(sanitize_candidate_for_wire("/\n"), "");
}

#[test]
fn reply_line_frames_candidates() {
    assert_eq!(reply_line(&vec![]), "4\n");
    assert_eq!(reply_line(&vec!["/".to_string(), "\n".to_string()]), "4\n");
    assert_eq!(
        reply_line(&vec!["a".to_string(), "b/c".to_string(), "".to_string()]),
        "1/a/bc/\n"
    );
}

#[test]
fn response_for_uses_the_given_snapshot() {
    let snap = build_snapshot(&[], &[nashi("あ", &["亜"]), nashi("い", &["胃", "意"])]);
    let config = CompoundGeneratorConfig::default();
    assert_eq!(response_for(&snap, config, " あい "), "1/亜胃/亜意/\n");
    assert_eq!(response_for(&snap, config, "   "), "4\n");
    assert_eq!(
        response_for(&snap, CompoundGeneratorConfig::new(1), "あい"),
        "1/亜胃/\n"
    );
    assert_eq!(response_for(&snap, CompoundGeneratorConfig::new(0), "あい"), "4\n");
}

#[test]
fn sanitize_trims_unicode_white_space() {
    let (body, okuri) = sanitize_yomi("\u{3000}\tあい\u{3000}\r\n");
    assert_eq!(body, "あい");
    assert_eq!(okuri, None);
}

#[test]
fn sanitize_keeps_ascii_and_uppercase_endings() {
    assert_eq!(sanitize_yomi("abcr"), ("abcr".to_string(), None));
    assert_eq!(sanitize_yomi("おくR"), ("おくR".to_string(), None));
    assert_eq!(sanitize_yomi("r"), ("r".to_string(), None));
}

#[test]
fn sanitize_is_idempotent() {
    for raw in [" おくr ", "もんだいなs", "abc", "  ", "あい\n"] {
        let (body, _) = sanitize_yomi(raw);
        assert_eq!(sanitize_yomi(&body), (body.clone(), None));
    }
}

#[test]
fn framing_resumes_across_reads() {
    let whole = "1あい 1うえ\n0 ".as_bytes().to_vec();
    let mut one = whole.clone();
    let all_at_once = extract_messages(&mut one, IncomingCharset::Utf8);
    for split in 0..=whole.len() {
        let mut buffer = whole[..split].to_vec();
        let mut got = extract_messages(&mut buffer, IncomingCharset::Utf8);
        buffer.extend_from_slice(&whole[split..]);
        got.extend(extract_messages(&mut buffer, IncomingCharset::Utf8));
        assert_eq!(got, all_at_once);
        assert_eq!(buffer, one);
    }
    assert_eq!(all_at_once.len(), 3);
    assert_eq!(all_at_once[2], ('0', String::new()));
}

#[test]
fn framing_skips_undecodable_payloads() {
    let mut buffer: Vec<u8> = vec![0xff, 0x20, b'1', b'a', 0x0a, b'2'];
    let messages = extract_messages(&mut buffer, IncomingCharset::Utf8);
    assert_eq!(messages, vec![('1', "a".to_string())]);
    assert_eq!(buffer, vec![b'2']);
}

#[test]
fn opcode_three_formats_the_port() {
    let server = SkkServer::new("v", "name", DictionaryStore::new(), CompoundGeneratorConfig::default());
    assert_eq!(
        server.handle_opcode('3', "", "127.0.0.1", 0),
        OpcodeResult::Reply("localhost/127.0.0.1:0 ".to_string())
    );
    assert_eq!(
        server.handle_opcode('3', "", "::1", 65535),
        OpcodeResult::Reply("localhost/::1:65535 ".to_string())
    );
}

#[test]
fn server_reads_the_current_snapshot() {
    let store = DictionaryStore::new();
    let server = SkkServer::new("v", "name", store.clone(), CompoundGeneratorConfig::default());
    assert_eq!(server.candidate_response("あい"), "4\n");
    store.update(build_snapshot(&[nashi("あ", &["亜"])], &[nashi("い", &["胃"])]));
    assert_eq!(server.candidate_response("あい"), "1/亜胃/\n");
}

#[test]
fn worker_decisions() {
    assert_eq!(worker_action(false, WorkerEvent::Woken), WorkerAction::Reload);
    assert_eq!(
        worker_action(false, WorkerEvent::Loaded { succeeded: true }),
        WorkerAction::Publish
    );
    assert_eq!(
        worker_action(false, WorkerEvent::Loaded { succeeded: false }),
        WorkerAction::KeepPrevious
    );
    assert_eq!(worker_action(true, WorkerEvent::Woken), WorkerAction::Exit);
    assert_eq!(
        worker_action(true, WorkerEvent::Loaded { succeeded: true }),
        WorkerAction::Exit
    );
}

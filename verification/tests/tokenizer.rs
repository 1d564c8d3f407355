use gpt2::tokenizer::{
    bytes_to_unicode, chars_of, split_covers_text, split_lines, split_spells_text, Tokenizer,
    TokenizerError,
};

const VOCAB: &str = "{\"hi\": 5, \"\u{120}there\": 7, \"h\": 1, \"i\": 2, \"!\": 0}";
const MERGES: &str = "#version: 0.2\nh i\n\u{120} t\nh e\n\u{120}t he\nr e\n\u{120}the re\n";

fn tokenizer() -> Tokenizer {
    Tokenizer::from_texts(VOCAB, MERGES).unwrap()
}

#[test]
fn byte_table_spells_bytes() {
    let table = bytes_to_unicode();
    assert_eq!(table[b'!' as usize], '!');
    assert_eq!(table[b'a' as usize], 'a');
    assert_eq!(table[0], '\u{100}');
    assert_eq!(table[32], '\u{120}');
    assert_eq!(table[127], '\u{121}');
    assert_eq!(table[173], '\u{143}');
    assert_eq!(table[255], '\u{ff}');
    for a in 0..256 {
        for b in 0..a {
            assert_ne!(table[a], table[b]);
        }
    }
}

#[test]
fn encode_merges_by_rank() {
    let t = tokenizer();
    assert_eq!(t.encode("hi there").unwrap(), vec![5, 7]);
    assert_eq!(t.encode("hi!").unwrap(), vec![5, 0]);
    assert_eq!(t.encode("").unwrap(), Vec::<u32>::new());
}

#[test]
fn decode_spells_the_bytes() {
    let t = tokenizer();
    assert_eq!(t.decode(&[5, 7]).unwrap(), "hi there");
    assert_eq!(t.decode(&[1, 2, 0]).unwrap(), "hi!");
    assert_eq!(t.decode(&[]).unwrap(), "");
}

#[test]
fn encode_then_decode_gives_the_text() {
    let t = tokenizer();
    for text in ["hi there", "hi!", "hi there!"] {
        let ids = t.encode(text).unwrap();
        assert_eq!(t.decode(&ids).unwrap(), text);
    }
}

#[test]
fn unknown_token_is_reported() {
    let t = tokenizer();
    match t.encode("hx") {
        Err(TokenizerError::TokenNotInVocab(tok)) => assert_eq!(tok, vec!['x']),
        other => panic!("unexpected {:?}", other),
    }
}

#[test]
fn unknown_id_is_reported() {
    let t = tokenizer();
    match t.decode(&[5, 99, 7]) {
        Err(TokenizerError::IdNotInVocab(id)) => assert_eq!(id, 99),
        other => panic!("unexpected {:?}", other),
    }
}

#[test]
fn char_outside_byte_table_is_reported() {
    let t = Tokenizer::from_texts("{\"\u{4e2d}\": 3}", "").unwrap();
    match t.decode(&[3]) {
        Err(TokenizerError::CharNotInByteTable(c)) => assert_eq!(c, '\u{4e2d}'),
        other => panic!("unexpected {:?}", other),
    }
}

#[test]
fn invalid_utf8_is_replaced() {
    // '\u{100}' spells byte 0x00 and '\u{ff}' spells byte 0xff, which is no UTF-8
    let t = Tokenizer::from_texts("{\"\u{ff}\": 1, \"a\": 2}", "").unwrap();
    assert_eq!(t.decode(&[2, 1]).unwrap(), "a\u{fffd}");
}

#[test]
fn bad_merge_line_is_reported() {
    match Tokenizer::from_texts(VOCAB, "#version\nh i\nabc\n") {
        Err(TokenizerError::BadMergeLine(line)) => assert_eq!(line, vec!['a', 'b', 'c']),
        Err(e) => panic!("unexpected {:?}", e),
        Ok(_) => panic!("accepted a bad merge line"),
    }
}

#[test]
fn bad_vocab_is_reported() {
    assert!(matches!(Tokenizer::from_texts("not json", MERGES), Err(TokenizerError::BadVocab(_))));
    assert!(matches!(Tokenizer::from_texts("{\"a\": -1}", MERGES), Err(TokenizerError::BadVocab(_))));
}

#[test]
fn merges_accept_crlf_and_blank_lines() {
    let t = Tokenizer::from_texts(VOCAB, "#version\r\n\r\nh i\r\n").unwrap();
    assert_eq!(t.encode("hi").unwrap(), vec![5]);
}

#[test]
fn header_line_is_not_a_rule() {
    // the first line is the version header even when it looks like a rule
    let t = Tokenizer::from_texts(VOCAB, "h i\n").unwrap();
    assert_eq!(t.encode("hi").unwrap(), vec![1, 2]);
}

fn lines_of(text: &str) -> Vec<String> {
    split_lines(&chars_of(text)).into_iter().map(|l| l.into_iter().collect()).collect()
}

#[test]
fn lines_split_like_str_lines() {
    assert_eq!(lines_of("a\r\nb\n\nc"), vec!["a", "b", "", "c"]);
    assert_eq!(lines_of("x\n"), vec!["x"]);
    assert_eq!(lines_of(""), Vec::<String>::new());
    assert_eq!(lines_of("\n"), vec![""]);
    assert_eq!(lines_of("a\r"), vec!["a\r"]);
    for text in ["a\r\nb\n\nc", "x\n", "", "\n", "one\ntwo", " \r\r\n"] {
        assert_eq!(lines_of(text), text.lines().collect::<Vec<_>>());
    }
}

#[test]
fn chars_are_kept_in_order() {
    assert_eq!(chars_of("h\u{e9}\u{1f600}"), vec!['h', '\u{e9}', '\u{1f600}']);
}

#[test]
fn pattern_pieces_cover_text() {
    for text in ["hi there!", "", "  a  b\n\tc", "it's 42 caf\u{e9}s"] {
        assert!(split_covers_text(text));
    }
}

#[test]
fn shared_ids_are_detected() {
    assert!(tokenizer().ids_are_unique());
    let t = Tokenizer::from_texts("{\"a\": 1, \"b\": 1}", "").unwrap();
    assert!(!t.ids_are_unique());
}

#[test]
fn reversible_encoding_round_trips() {
    let t = tokenizer();
    let ids = t.encode_reversible("hi there!").unwrap();
    assert_eq!(ids, vec![5, 7, 0]);
    assert_eq!(t.decode(&ids).unwrap(), "hi there!");
    assert!(t.encode_reversible("hx").is_none());
    let shared = Tokenizer::from_texts("{\"h\": 1, \"i\": 1}", "").unwrap();
    assert!(shared.encode_reversible("hi").is_none());
}

#[test]
fn decoder_inverts_encoder() {
    let t = tokenizer();
    for (text, id) in [("hi", 5u32), ("h", 1), ("i", 2), ("!", 0)] {
        assert_eq!(t.decode(&[id]).unwrap(), text);
    }
}

#[test]
fn pre_split_pieces_are_encoded_in_order() {
    let t = tokenizer();
    let split = (vec![b"hi".to_vec(), b" there".to_vec(), b"!".to_vec()], None);
    assert_eq!(t.encode_split(&split).unwrap(), vec![5, 7, 0]);
    let cut = (vec![b"hi".to_vec()], Some("backtrack limit".to_string()));
    match t.encode_split(&cut) {
        Err(TokenizerError::BadPattern(msg)) => assert_eq!(msg, "backtrack limit"),
        other => panic!("unexpected {:?}", other),
    }
    let unknown = (vec![b"x".to_vec()], Some("backtrack limit".to_string()));
    match t.encode_split(&unknown) {
        Err(TokenizerError::TokenNotInVocab(tok)) => assert_eq!(tok, vec!['x']),
        other => panic!("unexpected {:?}", other),
    }
}

#[test]
fn pieces_must_spell_the_whole_text() {
    let whole = (vec![b"hi".to_vec(), b" there".to_vec()], None);
    assert!(split_spells_text("hi there", &whole));
    let gap = (vec![b"hi".to_vec(), b"there".to_vec()], None);
    assert!(!split_spells_text("hi there", &gap));
    let cut = (vec![b"hi".to_vec(), b" there".to_vec()], Some("stopped".to_string()));
    assert!(!split_spells_text("hi there", &cut));
}

#[test]
fn rules_with_the_same_ends_are_told_apart() {
    let vocab = "{\"a\": 0, \"b\": 1, \"c\": 2, \"x\": 3, \"ab\": 4, \"abc\": 5, \"ax\": 6, \"axb\": 7, \"axbc\": 8}";
    let merges = "#version: 0.2\na b\nab c\na x\nax b\naxb c\n";
    let t = Tokenizer::from_texts(vocab, merges).unwrap();
    assert_eq!(t.encode("abc").unwrap(), vec![5]);
    assert_eq!(t.encode("axbc").unwrap(), vec![8]);
    assert_eq!(t.encode("bax").unwrap(), vec![1, 6]);
}

#[test]
fn a_repeated_rule_keeps_its_last_rank() {
    let vocab = "{\"a\": 0, \"b\": 1, \"c\": 2, \"ab\": 3, \"bc\": 4}";
    let merges = "#version: 0.2\nb c\na b\nb c\n";
    let t = Tokenizer::from_texts(vocab, merges).unwrap();
    assert_eq!(t.encode("abc").unwrap(), vec![3, 2]);
    assert_eq!(t.encode("bc").unwrap(), vec![4]);
}

#[test]
fn every_byte_decodes_through_its_character() {
    let table = bytes_to_unicode();
    let vocab = format!("{{\"{}\": 0, \"{}\": 1, \"{}\": 2}}", table[0], table[200], table[b'a' as usize]);
    let t = Tokenizer::from_texts(&vocab, "").unwrap();
    assert_eq!(t.decode(&[2]).unwrap(), "a");
    assert_eq!(t.decode(&[0]).unwrap(), "\u{0}");
    assert_eq!(t.decode(&[1, 1]).unwrap(), "\u{fffd}\u{fffd}");
}

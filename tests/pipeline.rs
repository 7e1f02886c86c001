use srt_handle::batch::{classify_srt_name, slot_file_name, SrtSlot};
use srt_handle::config::{parse_combine_phrases, parse_quoted_list, Config};
use srt_handle::pipeline::{merge_srt, process_srt};
use srt_handle::rules::{apply_combine_rules, apply_end_rules, should_skip_entry, skip_filter};
use srt_handle::srt::{format_srt_output, merge_bilingual, parse_srt, parse_u32, SrtEntry};

fn entry(index: u32, timestamp: &str, text: &str) -> SrtEntry {
    SrtEntry { index, timestamp: timestamp.to_string(), text: text.to_string() }
}

fn texts(es: &[SrtEntry]) -> Vec<String> {
    es.iter().map(|e| e.text.clone()).collect()
}

fn chars(s: &str) -> Vec<char> {
    s.chars().collect()
}

fn strings(v: &[&str]) -> Vec<String> {
    v.iter().map(|s| s.to_string()).collect()
}

const T1: &str = "00:00:01,000 --> 00:00:02,000";
const T2: &str = "00:00:03,000 --> 00:00:04,000";
const T3: &str = "00:00:05,000 --> 00:00:06,000";

#[test]
fn parse_basic_blocks() {
    let src = format!("1\n{}\nHello\nthere\n\n2\n{}\nSecond\n", T1, T2);
    let es = parse_srt(&src);
    assert_eq!(es.len(), 2);
    assert_eq!(es[0].index, 1);
    assert_eq!(es[0].timestamp, T1);
    assert_eq!(es[0].text, "Hello there");
    assert_eq!(es[1].index, 2);
    assert_eq!(es[1].text, "Second");
}

#[test]
fn parse_drops_malformed_index_block() {
    let src = format!("1\n{}\nA\n\nx\n{}\nB\n\n3\n{}\nC\n", T1, T2, T3);
    let es = parse_srt(&src);
    assert_eq!(texts(&es), strings(&["A", "C"]));
    assert_eq!(es[0].timestamp, T1);
    assert_eq!(es[1].timestamp, T3);
    assert_eq!(es[1].index, 3);
}

#[test]
fn parse_drops_short_and_blank_blocks() {
    let src = format!("\n\n1\n{}\n\n\n\n2\n{}\nB\n\n\n", T1, T2);
    let es = parse_srt(&src);
    assert_eq!(texts(&es), strings(&["B"]));
    assert!(parse_srt("").is_empty());
}

#[test]
fn parse_u32_cases() {
    assert_eq!(parse_u32(&chars("42")), Some(42));
    assert_eq!(parse_u32(&chars("+7")), Some(7));
    assert_eq!(parse_u32(&chars("4294967295")), Some(4294967295));
    assert_eq!(parse_u32(&chars("4294967296")), None);
    assert_eq!(parse_u32(&chars("")), None);
    assert_eq!(parse_u32(&chars("+")), None);
    assert_eq!(parse_u32(&chars("-1")), None);
    assert_eq!(parse_u32(&chars("1a")), None);
    assert_eq!(parse_u32(&chars(" 1")), None);
}

#[test]
fn parse_strips_carriage_returns_before_newline() {
    let src = format!("1\r\n{}\r\nHi\r\nyou\n", T1);
    let es = parse_srt(&src);
    assert_eq!(es.len(), 1);
    assert_eq!(es[0].timestamp, T1);
    assert_eq!(es[0].text, "Hi you");
}

#[test]
fn reparse_of_serialized_output_is_stable() {
    let src = format!("5\n{}\nOne\nline\n\nbad\n{}\nX\n\n9\n{}\nTwo\n", T1, T2, T3);
    let first = parse_srt(&src);
    let again = parse_srt(&format_srt_output(&first));
    assert_eq!(first.len(), again.len());
    for (a, b) in first.iter().zip(again.iter()) {
        assert_eq!(a.timestamp, b.timestamp);
        assert_eq!(a.text, b.text);
    }
    assert_eq!(again[0].index, 1);
    assert_eq!(again[1].index, 2);
}

#[test]
fn serializer_numbers_by_position() {
    let es = vec![entry(7, T1, "a"), entry(3, T2, "b"), entry(7, T3, "c")];
    let out = format_srt_output(&es);
    assert_eq!(out, format!("1\n{}\na\n\n2\n{}\nb\n\n3\n{}\nc\n", T1, T2, T3));
    assert_eq!(format_srt_output(&[]), "");
}

#[test]
fn serializer_counts_past_nine() {
    let es: Vec<SrtEntry> = (0..12).map(|i| entry(0, T1, &format!("t{}", i))).collect();
    let out = format_srt_output(&es);
    assert!(out.ends_with(&format!("12\n{}\nt11\n", T1)));
    assert!(out.contains(&format!("\n\n10\n{}\nt9\n", T1)));
}

#[test]
fn skip_word_match_ignores_case() {
    let skip = strings(&["music"]);
    assert!(should_skip_entry("[MUSIC PLAYING]", &skip));
    assert!(should_skip_entry("some Music here", &skip));
    assert!(!should_skip_entry("musi c", &skip));
    assert!(!should_skip_entry("anything", &[]));
}

#[test]
fn skip_filter_keeps_order_of_the_rest() {
    let es = vec![entry(1, T1, "keep one"), entry(2, T2, "[Applause]"), entry(3, T3, "keep two")];
    let kept = skip_filter(&es, &strings(&["applause", "zzz"]));
    assert_eq!(texts(&kept), strings(&["keep one", "keep two"]));
    assert_eq!(kept[1].timestamp, T3);
}

#[test]
fn combine_rule_fuses_neighbours() {
    let mut es = vec![entry(1, T1, "...end with HELLO"), entry(2, T2, "world...")];
    let rules = vec![("hello".to_string(), "world".to_string())];
    apply_combine_rules(&mut es, &rules);
    assert_eq!(texts(&es), strings(&["...end with HELLO world..."]));
    assert_eq!(es[0].timestamp, T1);
}

#[test]
fn combine_chains_at_the_same_position() {
    let mut es = vec![entry(1, T1, "a of"), entry(2, T2, "the b of"), entry(3, T3, "the c")];
    let rules = vec![("of".to_string(), "the".to_string())];
    apply_combine_rules(&mut es, &rules);
    assert_eq!(texts(&es), strings(&["a of the b of the c"]));
}

#[test]
fn combine_without_fit_changes_nothing() {
    let mut es = vec![entry(1, T1, "hello"), entry(2, T2, "there")];
    let rules = vec![("hello".to_string(), "world".to_string())];
    apply_combine_rules(&mut es, &rules);
    assert_eq!(texts(&es), strings(&["hello", "there"]));
}

#[test]
fn end_word_moves_to_next_entry() {
    let mut es = vec![entry(1, T1, "I said goodbye"), entry(2, T2, "to you")];
    apply_end_rules(&mut es, &strings(&["goodbye"]));
    assert_eq!(texts(&es), strings(&["I said", "goodbye to you"]));
}

#[test]
fn end_phrase_of_several_words_keeps_its_case() {
    let mut es = vec![entry(1, T1, "we went  TO THE"), entry(2, T2, "shop")];
    apply_end_rules(&mut es, &strings(&["to the", "the"]));
    assert_eq!(texts(&es), strings(&["we went", "to the shop"]));
}

#[test]
fn end_phrase_longer_than_entry_does_not_fit() {
    let mut es = vec![entry(1, T1, "hi"), entry(2, T2, "there")];
    apply_end_rules(&mut es, &strings(&["oh hi"]));
    assert_eq!(texts(&es), strings(&["hi", "there"]));
}

#[test]
fn end_pass_always_advances() {
    let mut es = vec![entry(1, T1, "x and"), entry(2, T2, "and"), entry(3, T3, "z")];
    apply_end_rules(&mut es, &strings(&["and"]));
    assert_eq!(texts(&es), strings(&["x", "and", "and z"]));
}

#[test]
fn bilingual_merge_pairs_equal_timestamps() {
    let es = vec![entry(1, T1, "A"), entry(2, T1, "B"), entry(3, T2, "C")];
    let merged = merge_bilingual(&es);
    assert_eq!(merged.len(), 2);
    assert_eq!(merged[0].timestamp, T1);
    assert_eq!(merged[0].text, "A\nB");
    assert_eq!(merged[1].timestamp, T2);
    assert_eq!(merged[1].text, "C");
}

#[test]
fn bilingual_merge_does_not_chain_three() {
    let es = vec![entry(1, T1, "A"), entry(2, T1, "B"), entry(3, T1, "C")];
    let merged = merge_bilingual(&es);
    assert_eq!(texts(&merged), strings(&["A\nB", "C"]));
}

#[test]
fn merge_srt_reports_counts() {
    let src = format!("1\n{}\nHello\n\n2\n{}\n你好\n\n3\n{}\nBye\n", T1, T1, T2);
    let out = merge_srt(&src);
    assert_eq!(out.count_before, 3);
    assert_eq!(out.count_after, 2);
    assert_eq!(out.output, format!("1\n{}\nHello\n你好\n\n2\n{}\nBye\n", T1, T2));
}

#[test]
fn quoted_list_extraction() {
    assert_eq!(parse_quoted_list(&chars(r#" "a" "b c"  "d" "#)), strings(&["a", "b c", "d"]));
    assert_eq!(parse_quoted_list(&chars(r#""" "x""#)), strings(&[" "]));
    assert_eq!(parse_quoted_list(&chars(r#""ok" "open"#)), strings(&["ok"]));
    assert!(parse_quoted_list(&chars("none here")).is_empty());
}

#[test]
fn combine_phrases_split_at_first_space() {
    let pairs = parse_combine_phrases(&chars(r#""of the" "in a big" "single""#));
    assert_eq!(
        pairs,
        vec![
            ("of".to_string(), "the".to_string()),
            ("in".to_string(), "a big".to_string()),
        ]
    );
}

#[test]
fn config_from_content_reads_known_keys() {
    let text = "SKIP: \"[Music]\" \"um\"\n  COMBINE: \"of the\"\nEND: \"and so\" \"but\"\n\nINSERT: \"a b\"\nSPLIT: \"x\"\nOTHER: \"y\"\n";
    let c = Config::from_content(text);
    assert_eq!(c.skip_words, strings(&["[Music]", "um"]));
    assert_eq!(c.combine_phrases, vec![("of".to_string(), "the".to_string())]);
    assert_eq!(c.end_words, strings(&["and so", "but"]));
    assert_eq!(c.insert_phrases, vec![("a".to_string(), "b".to_string())]);
    assert_eq!(c.split_words, strings(&["x"]));
}

#[test]
fn config_later_line_replaces_earlier() {
    let c = Config::from_content("SKIP: \"a\"\nSKIP: \"b\"\n");
    assert_eq!(c.skip_words, strings(&["b"]));
    assert!(c.end_words.is_empty());
}

#[test]
fn embedded_config_loads() {
    let c = Config::from_embedded();
    assert!(!c.skip_words.is_empty());
}

#[test]
fn process_applies_passes_in_order() {
    let c = Config::from_content("SKIP: \"[music]\"\nCOMBINE: \"hello world\"\nEND: \"goodbye\"\n");
    let src = format!(
        "4\n{}\n[Music]\n\n5\n{}\nsay HELLO\n\n6\n{}\nworld and goodbye\n\n7\n{}\nfriend\n",
        T1, T2, T3, T1
    );
    let out = process_srt(&src, &c);
    assert_eq!(out, format!("1\n{}\nsay HELLO world and\n\n2\n{}\ngoodbye friend\n", T2, T1));
}

#[test]
fn process_without_matching_rules_only_renumbers() {
    let c = Config::from_content("SKIP: \"zzz\"\nCOMBINE: \"qq rr\"\nEND: \"ww\"\n");
    let src = format!("10\n{}\nfirst\n\n20\n{}\nsecond\n", T1, T2);
    let out = process_srt(&src, &c);
    assert_eq!(out, format!("1\n{}\nfirst\n\n2\n{}\nsecond\n", T1, T2));
}

#[test]
fn batch_names_map_to_slots() {
    assert_eq!(classify_srt_name("Talk [Chinese (Simplified)].srt"), Some(SrtSlot::Chinese));
    assert_eq!(
        classify_srt_name("Talk [English - English-Chinese (Simplified)].srt"),
        Some(SrtSlot::Bilingual)
    );
    assert_eq!(classify_srt_name("Talk [English - English].srt"), Some(SrtSlot::English));
    assert_eq!(classify_srt_name("Talk.srt"), None);
    assert_eq!(slot_file_name(SrtSlot::Chinese), "zh_srt.srt");
    assert_eq!(slot_file_name(SrtSlot::English), "en_srt.srt");
    assert_eq!(slot_file_name(SrtSlot::Bilingual), "bil_srt.srt");
}

#[test]
fn parse_needs_three_non_empty_lines() {
    assert!(parse_srt("1\n\r\nA").is_empty());
    let src = format!("1\n\r\nA\n\n2\n{}\nB\n", T2);
    let es = parse_srt(&src);
    assert_eq!(texts(&es), strings(&["B"]));
    assert_eq!(es[0].index, 2);
}

#[test]
fn malformed_block_between_others_changes_nothing() {
    let a = format!("1\n{}\nA", T1);
    let b = format!("2\n{}\nB\n", T2);
    let with_bad = parse_srt(&format!("{}\n\nnot a number\n{}\nX\n\n{}", a, T3, b));
    let without = parse_srt(&format!("{}\n\n{}", a, b));
    assert_eq!(texts(&with_bad), texts(&without));
    assert_eq!(texts(&with_bad), strings(&["A", "B"]));
}

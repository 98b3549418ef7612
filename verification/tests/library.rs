use std::hash::{Hash, Hasher};

use emoji_compress::brackets::trim_bracket;
use emoji_compress::compress::{compress, compress_aux, compress_with};
use emoji_compress::distil::distil;
use emoji_compress::emoji::{pick_distance, pick_random, pick_subset, EmojiEntry};
use emoji_compress::grow::{grow, grow_backwards, grow_forwards};
use emoji_compress::text::{contains_seq, replace_all, split_bytes, trim_text};

fn entry(glyph: &str, shortcode: Option<&str>) -> EmojiEntry {
    EmojiEntry { glyph: glyph.to_string(), shortcode: shortcode.map(|s| s.to_string()) }
}

fn small_table() -> Vec<EmojiEntry> {
    vec![
        entry("X1", Some("zzz")),
        entry("Y2", Some("big_world")),
        entry("Z3", Some("lo")),
        entry("W4", None),
    ]
}

// ---------------------------------------------------------------- brackets

#[test]
fn trim_without_brackets_keeps_all() {
    assert_eq!(trim_bracket("plain text"), "plain text");
}

#[test]
fn trim_empty_pair_keeps_all() {
    assert_eq!(trim_bracket("a<>b"), "a<>b");
}

#[test]
fn trim_unmatched_brackets_are_cut_off() {
    assert_eq!(trim_bracket("<<<a"), "");
    assert_eq!(trim_bracket("a>>>"), "");
    assert_eq!(trim_bracket("a<b"), "a");
    assert_eq!(trim_bracket("x>ab<c"), "ab");
    assert_eq!(trim_bracket("é>ü<"), "ü");
}

#[test]
fn trim_tie_takes_later_pair() {
    assert_eq!(trim_bracket("<ab><cd>"), "cd");
    assert_eq!(trim_bracket("<abc><d>"), "abc");
}

#[test]
fn trim_result_is_level() {
    // the inside of the widest pair has level brackets
    assert_eq!(trim_bracket("x<a<b>c>y"), "a<b>c");
    assert_eq!(trim_bracket("<<a>b><c"), "<a>b");
}

#[test]
fn trim_multibyte_text() {
    assert_eq!(trim_bracket("é<ü€>ß"), "ü€");
}

// ---------------------------------------------------------------- grow

#[test]
fn grow_forwards_needs_two_starts() {
    assert_eq!(grow_forwards(1, &[0], b"aaaa"), None);
    assert_eq!(grow_forwards(1, &[], b"aaaa"), None);
}

#[test]
fn grow_forwards_does_not_overlap() {
    // "abcabc" at 0 and 3 would overlap; "abc" three times does not
    assert_eq!(grow_forwards(1, &[0, 3, 6], b"abcabcabcX"), Some((3, vec![0, 3, 6])));
}

#[test]
fn grow_backwards_stops_at_start() {
    assert_eq!(grow_backwards(2, &[0, 4], b"abcdabcd"), None);
    assert_eq!(grow_backwards(2, &[5], b"abcdabcd"), None);
}

#[test]
fn grow_stops_where_starts_disagree() {
    let r = grow(1, &[1, 5], b"xab_yab_").unwrap();
    assert!(r.0 * r.1.len() >= 2);
    assert_eq!(r, (2, vec![1, 5]));
}

#[test]
fn grow_forwards_keeps_growing_overlapping_class() {
    // the class {0, 1, 10} overlaps at length 2; its spaced pair 0, 10 still
    // grows to nine shared bytes
    assert_eq!(grow_forwards(1, &[0, 1, 10], &[b'a'; 20]), Some((9, vec![0, 10])));
}

#[test]
fn grow_backwards_keeps_growing_overlapping_class() {
    assert_eq!(grow_backwards(1, &[9, 10, 20], &[b'a'; 30]), Some((9, vec![1, 12])));
}

#[test]
fn grow_forwards_gives_nothing_for_only_overlapping_runs() {
    // every run of three or more bytes at 0 and 1 overlaps the other
    assert_eq!(grow_forwards(3, &[0, 1], b"aaaaaa"), None);
}

#[test]
fn grow_forwards_thins_out_overlapping_starts() {
    // at length 2 the starts 0 and 1 overlap: the scan keeps 0 and 2
    assert_eq!(grow_forwards(2, &[0, 1, 2], b"aaaaX"), Some((2, vec![0, 2])));
}

#[test]
fn grow_nothing_when_backwards_fails() {
    // forwards finds (2, [0, 3]); backwards from position 0 gives nothing
    assert_eq!(grow(1, &[0, 3], b"abXabY"), None);
}

// ---------------------------------------------------------------- distil

#[test]
fn distil_hello_world() {
    let r = distil(b"hello world hello world", 40);
    assert_eq!(r, vec!["ello worl".to_string(); 5]);
}

#[test]
fn distil_limits_suggestions() {
    // the first round takes "hello", whose run starts the input and so is
    // not grown backwards: it makes no suggestion
    let r = distil(b"hello world hello world", 2);
    assert_eq!(r, vec!["ello worl".to_string()]);
}

#[test]
fn distil_valid_text_comes_back_as_is() {
    assert_eq!(distil(b"xabcdeyabcdez", 3), vec!["abcde".to_string()]);
}

#[test]
fn distil_invalid_bytes_read_lossily() {
    let r = distil(b"x\xffabcdy\xffabcdz", 3);
    assert_eq!(r, vec!["\u{fffd}abcd".to_string()]);
}

#[test]
fn trim_text_drops_white_space_at_both_ends() {
    assert_eq!(trim_text("  a b\t\n"), "a b");
    assert_eq!(trim_text("\u{3000}x\u{a0}"), "x");
    assert_eq!(trim_text(" \t "), "");
    assert_eq!(trim_text("abc"), "abc");
}

#[test]
fn distil_short_input() {
    assert!(distil(b"abcd", 40).is_empty());
    assert!(distil(b"", 40).is_empty());
}

#[test]
fn distil_no_repeats() {
    assert!(distil(b"abcdefghij", 40).is_empty());
}

#[test]
fn distil_reads_invalid_utf8_lossily() {
    let input = [b'q', 0xff, b'a', b'b', b'c', b'd', b'x', b'r', 0xff, b'a', b'b', b'c', b'd', b'y'];
    assert_eq!(distil(&input, 40), vec!["\u{FFFD}abcd".to_string()]);
}

// ---------------------------------------------------------------- text

#[test]
fn replace_all_left_to_right() {
    assert_eq!(replace_all(b"aaaa", b"aa", b"b"), b"bb".to_vec());
    assert_eq!(replace_all(b"aaa", b"aa", b"b"), b"ba".to_vec());
    assert_eq!(replace_all(b"xyz", b"q", b"b"), b"xyz".to_vec());
}

#[test]
fn split_keeps_empty_pieces() {
    assert_eq!(split_bytes(b"a__b", b'_'), vec![b"a".to_vec(), b"".to_vec(), b"b".to_vec()]);
    assert_eq!(split_bytes(b"", b'_'), vec![b"".to_vec()]);
}

#[test]
fn contains_seq_cases() {
    assert!(contains_seq(b"hello", b"llo"));
    assert!(contains_seq(b"hello", b""));
    assert!(!contains_seq(b"hello", b"lol"));
}

// ---------------------------------------------------------------- emoji

#[test]
fn pick_subset_longest_piece() {
    let table = small_table();
    // "big_world": "world" (5 bytes) beats "lo" (2 bytes)
    assert_eq!(pick_subset("hello world", &Vec::new(), &table), 1);
}

#[test]
fn pick_subset_lowercases() {
    let table = small_table();
    assert_eq!(pick_subset("HELLO", &Vec::new(), &table), 2);
}

#[test]
fn pick_subset_skips_used() {
    let table = small_table();
    let used = vec!["Y2".to_string()];
    assert_eq!(pick_subset("hello world", &used, &table), 2);
}

#[test]
fn pick_subset_defaults_to_first() {
    let table = small_table();
    assert_eq!(pick_subset("nothing", &Vec::new(), &table), 0);
}

#[test]
fn pick_distance_nearest() {
    let table = vec![entry("A", Some("rocket")), entry("B", None), entry("C", Some("rock")), entry("D", Some("sun"))];
    assert_eq!(pick_distance("rocks", &table), Some(2));
}

#[test]
fn pick_distance_first_on_tie() {
    let table = vec![entry("A", Some("cat")), entry("B", Some("bat"))];
    assert_eq!(pick_distance("rat", &table), Some(0));
}

#[test]
fn pick_distance_none_without_shortcodes() {
    let table = vec![entry("A", None)];
    assert_eq!(pick_distance("rat", &table), None);
}

#[test]
fn pick_random_uses_hash() {
    let table: Vec<EmojiEntry> =
        (0..300u32).map(|k| entry(&char::from_u32(0x4e00 + k).unwrap().to_string(), None)).collect();
    let mut hasher = std::collections::hash_map::DefaultHasher::new();
    "some text".hash(&mut hasher);
    let k = (hasher.finish() % 100) as u32 + 200;
    assert_eq!(pick_random("some text", &table), char::from_u32(0x4e00 + k));
}

#[test]
fn pick_random_small_table() {
    let table = small_table();
    assert_eq!(pick_random("some text", &table), None);
}

// ---------------------------------------------------------------- compress

#[test]
fn compress_with_small_table() {
    let r = compress_with("hello world hello world".to_string(), &small_table());
    assert_eq!(r, "hZ3d hZ3d\n where \nZ3 (lo)\t= ello worl");
}

#[test]
fn compress_with_trims_suggestions() {
    let r = compress_with("xx hello yy hello zz".to_string(), &small_table());
    assert_eq!(r, "xx Z3 yy Z3 zz\n where \nZ3 (lo)\t= hello");
}

#[test]
fn compress_with_lowercases_for_the_pick() {
    let r = compress_with("xx HELLO yy HELLO zz".to_string(), &small_table());
    assert_eq!(r, "xx Z3 yy Z3 zz\n where \nZ3 (lo)\t= HELLO");
}

#[test]
fn compress_with_strips_escapes_to_find_runs() {
    let r = compress_with("\x1b[31mhello world\x1b[0m hello world\x1b[0m".to_string(), &small_table());
    assert_eq!(r, "\x1b[31mhZ3d\x1b[0m hZ3d\x1b[0m\n where \nZ3 (lo)\t= ello worl");
}

#[test]
fn compress_with_short_or_plain_text_unchanged() {
    assert_eq!(compress_with("abc".to_string(), &small_table()), "abc");
    assert_eq!(compress_with("abcdefghij".to_string(), &small_table()), "abcdefghij");
}

#[test]
fn compress_aux_records_used() {
    let mut out = Vec::new();
    let mut used = Vec::new();
    let res = compress_aux(b"hello world hello world", b"hello world hello world", &mut out, &mut used, &small_table());
    assert_eq!(res, b"hZ3d hZ3d".to_vec());
    assert_eq!(out, b"\nZ3 (lo)\t= ello worl".to_vec());
    // each emoji is recorded once, as in a set
    assert_eq!(used, vec!["Z3".to_string(), "X1".to_string()]);
}

#[test]
fn compress_short_text_unchanged() {
    assert_eq!(compress("abc".to_string()), "abc");
    assert_eq!(compress("abcdefghij".to_string()), "abcdefghij");
}

#[test]
fn compress_uses_real_emojis() {
    let r = compress("xx hello yy hello zz".to_string());
    assert!(r.contains("\n where \n"));
    assert!(!r.starts_with("xx hello"));
}

#[test]
fn compress_text_without_repeats_comes_back_unchanged() {
    assert_eq!(compress(String::from("abcdefgh")), "abcdefgh");
}

#[test]
fn compress_lists_each_emoji_once() {
    let text = "hello_world hello_world hello_world; hello_world".to_string();
    let r = compress(text);
    let legend: Vec<&str> = r.split('\n').skip(2).collect();
    let mut seen: Vec<&str> = Vec::new();
    for line in legend {
        let glyph = line.split(' ').next().unwrap();
        assert!(!seen.contains(&glyph));
        seen.push(glyph);
    }
}


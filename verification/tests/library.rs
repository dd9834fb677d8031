use resharp_rs::algorithm::{derivative, is_nullable};
use resharp_rs::builder::RegexBuilder;
use resharp_rs::charset::CharSet;
use resharp_rs::engine::utf8_char_width;
use resharp_rs::parser::{is_metachar, Parser};
use resharp_rs::types::node_id;
use resharp_rs::types::{LocationKind, Match, NodeFlags, RefSet, StateFlags};
use resharp_rs::{Error, ParseError, Regex};

fn parse_error(pattern: &str) -> ParseError {
    match Regex::new(pattern) {
        Err(Error::Parse(e)) => e,
        Err(_) => panic!("not a parse error for {:?}", pattern),
        Ok(_) => panic!("pattern {:?} was accepted", pattern),
    }
}

fn find_span(pattern: &str, input: &str) -> Option<(usize, usize)> {
    let mut re = Regex::new(pattern).unwrap();
    re.find(input).map(|m| (m.start, m.end))
}

fn all_spans(pattern: &str, input: &str) -> Vec<(usize, usize)> {
    let mut re = Regex::new(pattern).unwrap();
    re.find_all(input).iter().map(|m| (m.start, m.end)).collect()
}

// ----- parse errors: position and message -----

#[test]
fn error_unclosed_group() {
    let e = parse_error("(");
    assert_eq!(e.position, 1);
    assert_eq!(e.message, "Expected ')', found end of input");
}

#[test]
fn error_unexpected_character() {
    let e = parse_error("a)");
    assert_eq!(e.position, 1);
    assert_eq!(e.message, "Unexpected character");
}

#[test]
fn error_unexpected_metacharacter() {
    let e = parse_error("*a");
    assert_eq!(e.position, 0);
    assert_eq!(e.message, "Unexpected metacharacter '*'");
}

#[test]
fn error_unexpected_end_of_input() {
    let e = parse_error("a|(?:");
    assert_eq!(e.message, "Expected ')', found end of input");
    assert_eq!(e.position, 5);
}

#[test]
fn error_expected_a_number() {
    let e = parse_error("a{");
    assert_eq!(e.position, 2);
    assert_eq!(e.message, "Expected a number");
}

#[test]
fn error_repeat_unclosed() {
    let e = parse_error("a{2");
    assert_eq!(e.position, 3);
    assert_eq!(e.message, "Expected '}', found end of input");
}

#[test]
fn error_repeat_wrong_closer() {
    let e = parse_error("a{2x}");
    assert_eq!(e.position, 4);
    assert_eq!(e.message, "Expected '}', found 'x'");
}

#[test]
fn error_lookbehind_kind() {
    let e = parse_error("(?<x)");
    assert_eq!(e.position, 3);
    assert_eq!(e.message, "Expected '=' or '!' after '(?<'");
}

#[test]
fn error_unknown_flag() {
    let e = parse_error("(?q)");
    assert_eq!(e.position, 2);
    assert_eq!(e.message, "Unknown flag character 'q'");
}

#[test]
fn error_unknown_posix_class() {
    let e = parse_error("[[:foo:]]");
    assert_eq!(e.position, 8);
    assert_eq!(e.message, "Unknown POSIX class 'foo'");
}

#[test]
fn error_invalid_posix_name() {
    let e = parse_error("[[:al1:]]");
    assert_eq!(e.position, 5);
    assert_eq!(e.message, "Invalid POSIX class name");
}

#[test]
fn error_escape_at_end() {
    let e = parse_error("ab\\");
    assert_eq!(e.position, 3);
    assert_eq!(e.message, "Unexpected end after escape");
}

#[test]
fn error_range_at_end() {
    let e = parse_error("[a-");
    assert_eq!(e.position, 3);
    assert_eq!(e.message, "Expected end of range");
}

#[test]
fn error_class_unclosed() {
    let e = parse_error("[ab");
    assert_eq!(e.position, 3);
    assert_eq!(e.message, "Expected ']', found end of input");
}

#[test]
fn error_complement_needs_group() {
    let e = parse_error("~a");
    assert_eq!(e.position, 2);
    assert_eq!(e.message, "Expected '(', found 'a'");
}

#[test]
fn error_escape_in_class_at_end() {
    let e = parse_error("[\\");
    assert_eq!(e.position, 2);
    assert_eq!(e.message, "Unexpected end after escape");
}

// ----- error texts -----

#[test]
fn parse_error_text() {
    let e = parse_error("(");
    assert_eq!(e.to_string(), "Parse error at position 1: Expected ')', found end of input");
    let wide = ParseError { message: String::from("boom"), position: 1207 };
    assert_eq!(wide.to_string(), "Parse error at position 1207: boom");
}

#[test]
fn error_texts() {
    let parse = Error::from(ParseError { message: String::from("bad"), position: 0 });
    assert_eq!(parse.to_string(), "Parse error at position 0: bad");
    assert!(matches!(parse, Error::Parse(_)));
    assert_eq!(Error::Compile(String::from("oops")).to_string(), "Compilation error: oops");
    assert_eq!(
        Error::DfaStateLimitExceeded.to_string(),
        "DFA state limit exceeded (pattern too complex)"
    );
}

// ----- accepted syntax -----

#[test]
fn accepts_flag_groups_and_lazy_quantifiers() {
    assert!(Regex::new("(?i)abc").is_ok());
    assert!(Regex::new("(?i-u:ab)c").is_ok());
    assert!(Regex::new("a*?b+?c??").is_ok());
    assert!(Regex::new("a{2,}?").is_ok());
    assert!(Regex::new("").is_ok());
    assert!(Regex::new("a||b").is_ok());
}

#[test]
fn parser_direct_use() {
    let parser = Parser::new("ab|c");
    let (root, builder) = parser.parse().unwrap();
    assert!(root < builder.len() as u32);
    let bad = Parser::new("a(b");
    assert!(bad.parse().is_err());
}

// ----- matching -----

#[test]
fn find_longest_from_leftmost_start() {
    assert_eq!(find_span("a+", "baaab"), Some((1, 4)));
    assert_eq!(find_span("a|ab", "xab"), Some((1, 3)));
    assert_eq!(find_span("ab|a", "xab"), Some((1, 3)));
    assert_eq!(find_span("b", "aaa"), None);
}

#[test]
fn find_empty_pattern_and_input() {
    assert_eq!(find_span("", ""), Some((0, 0)));
    assert_eq!(find_span("a*", ""), Some((0, 0)));
    assert_eq!(find_span("a", ""), None);
    assert_eq!(find_span("a*", "bbb"), Some((0, 0)));
}

#[test]
fn find_all_successive_matches() {
    assert_eq!(all_spans("ab", "abxab"), vec![(0, 2), (3, 5)]);
    assert_eq!(all_spans("a+", "aabaaa"), vec![(0, 2), (3, 6)]);
    assert_eq!(all_spans("x", "abc"), Vec::<(usize, usize)>::new());
}

#[test]
fn find_all_with_empty_matches() {
    assert_eq!(all_spans("a*", "baa"), vec![(0, 0), (1, 3), (3, 3)]);
    assert_eq!(all_spans("", "ab"), vec![(0, 0), (1, 1), (2, 2)]);
}

#[test]
fn find_all_results_are_ordered() {
    let mut re = Regex::new("[a-z]+").unwrap();
    let ms = re.find_all("one two  three");
    assert_eq!(ms.len(), 3);
    for k in 0..ms.len() {
        assert!(ms[k].start <= ms[k].end);
        if k + 1 < ms.len() {
            assert!(ms[k].end <= ms[k + 1].start);
        }
    }
    assert_eq!(ms[2].as_str("one two  three"), "three");
}

#[test]
fn literal_prefix_searches() {
    assert_eq!(find_span("hello", "say hello"), Some((4, 9)));
    assert_eq!(find_span("h", "ohoh"), Some((1, 2)));
    assert_eq!(all_spans("ab+", "abbxabab"), vec![(0, 3), (4, 6), (6, 8)]);
    assert_eq!(all_spans("x", "xaxx"), vec![(0, 1), (2, 3), (3, 4)]);
}

#[test]
fn start_byte_searches() {
    assert_eq!(find_span("[xy]z", "aayzxz"), Some((2, 4)));
    assert_eq!(all_spans("[xy]z", "aayzxz"), vec![(2, 4), (4, 6)]);
}

#[test]
fn anchors() {
    assert_eq!(find_span("^ab", "abab"), Some((0, 2)));
    assert_eq!(all_spans("^ab", "abab"), vec![(0, 2)]);
    assert_eq!(find_span("ab$", "abab"), Some((2, 4)));
    assert_eq!(find_span("^$", ""), Some((0, 0)));
    assert_eq!(find_span("\\Aa", "aa"), Some((0, 1)));
    assert_eq!(find_span("a\\z", "aa"), Some((1, 2)));
}

#[test]
fn repetition_counts() {
    assert_eq!(find_span("a{2,3}", "aaaa"), Some((0, 3)));
    assert_eq!(find_span("a{2}", "aaa"), Some((0, 2)));
    assert_eq!(find_span("a{2,}", "aaaaa"), Some((0, 5)));
    assert_eq!(find_span("a{3}", "aa"), None);
    assert_eq!(find_span("(?:ab){2}", "abababx"), Some((0, 4)));
}

#[test]
fn bracket_classes() {
    assert_eq!(find_span("[a-c]+", "xxabcd"), Some((2, 5)));
    assert_eq!(find_span("[^a-c]+", "abxyz"), Some((2, 5)));
    assert_eq!(find_span("[[:digit:]]+", "ab123c"), Some((2, 5)));
    assert_eq!(find_span("[[:^alpha:]]+", "ab12cd"), Some((2, 4)));
    assert_eq!(find_span("[\\d_]+", "x1_2y"), Some((1, 4)));
    assert_eq!(find_span("[a-]+", "x-a-y"), Some((1, 4)));
    assert_eq!(find_span("[[:upper:][:digit:]]+", "abC9d"), Some((2, 4)));
}

#[test]
fn escape_classes() {
    assert_eq!(find_span("\\d+", "x42y"), Some((1, 3)));
    assert_eq!(find_span("\\w+", "  foo_1 "), Some((2, 7)));
    assert_eq!(find_span("\\s+", "a \t b"), Some((1, 4)));
    assert_eq!(find_span("\\D+", "12ab3"), Some((2, 4)));
    assert_eq!(find_span("\\W", "ab-c"), Some((2, 3)));
    assert_eq!(find_span("\\S+", "  ab "), Some((2, 4)));
    assert_eq!(find_span("a\\.b", "axb a.b"), Some((4, 7)));
    assert_eq!(find_span("\\t", "a\tb"), Some((1, 2)));
}

#[test]
fn dot_and_wildcard() {
    assert_eq!(find_span("a.c", "a\ncabc"), Some((3, 6)));
    assert_eq!(find_span("a_c", "a\nc"), Some((0, 3)));
}

#[test]
fn intersection_and_complement() {
    let mut both = Regex::new("_*a_*&_*b_*").unwrap();
    assert!(both.is_match("xaxbx"));
    assert!(!both.is_match("aaa"));
    let mut without = Regex::new("~(_*ab_*)").unwrap();
    assert!(without.is_match(""));
    let mut none = Regex::new("~(_*)").unwrap();
    assert!(!none.is_match("abc"));
}

#[test]
fn lookarounds_and_word_boundaries() {
    // The lookahead's own characters are read as part of the match.
    assert_eq!(find_span("a(?=b)", "ac ab"), Some((3, 5)));
    assert!(Regex::new("(?<=x)a").is_ok());
    assert!(Regex::new("(?<!x)a").is_ok());
}

#[test]
fn groups_and_flags() {
    assert_eq!(find_span("(?:ab)+", "ababx"), Some((0, 4)));
    assert_eq!(find_span("(ab)+", "xabab"), Some((1, 5)));
    assert_eq!(find_span("(?i)abc", "xabc"), Some((1, 4)));
    assert_eq!(find_span("(?m:ab)", "cab"), Some((1, 3)));
}

#[test]
fn with_state_limit_keeps_matching() {
    let mut re = Regex::new("a+b").unwrap().with_state_limit(3);
    assert_eq!(re.find("xaab").map(|m| (m.start, m.end)), Some((1, 4)));
}

#[test]
fn is_match_agrees_with_find() {
    let patterns = ["a+", "b", "[0-9]{2}", "x|y"];
    let inputs = ["", "a", "12", "zzz", "y"];
    for p in patterns.iter() {
        for i in inputs.iter() {
            let mut re = Regex::new(p).unwrap();
            let m = re.is_match(i);
            let mut re2 = Regex::new(p).unwrap();
            assert_eq!(m, re2.find(i).is_some());
        }
    }
}

// ----- character sets -----

#[test]
fn charset_basic_sets() {
    assert!(CharSet::empty().is_empty());
    assert!(!CharSet::full().is_empty());
    assert!(CharSet::full().contains_ascii(0));
    assert!(CharSet::full().contains_ascii(127));
    let a = CharSet::singleton('a');
    assert!(a.contains_ascii(b'a'));
    assert!(!a.contains_ascii(b'b'));
    let b = CharSet::ascii_singleton(b'b');
    assert!(b.contains_ascii(b'b'));
    assert!(!b.contains_ascii(b'a'));
}

#[test]
fn charset_ranges_and_inserts() {
    let r = CharSet::range('b', 'd');
    assert!(!r.contains_ascii(b'a'));
    assert!(r.contains_ascii(b'b'));
    assert!(r.contains_ascii(b'd'));
    assert!(!r.contains_ascii(b'e'));
    let mut s = CharSet::empty();
    s.insert('x');
    s.insert_range('0', '2');
    assert!(s.contains_ascii(b'x'));
    assert!(s.contains_ascii(b'1'));
    assert!(!s.contains_ascii(b'3'));
    let mut backwards = CharSet::empty();
    backwards.insert_range('z', 'a');
    assert!(!backwards.contains_ascii(b'm'));
}

#[test]
fn charset_set_operations() {
    let ab = CharSet::range('a', 'b');
    let bc = CharSet::range('b', 'c');
    let u = ab.union(&bc);
    assert!(u.contains_ascii(b'a') && u.contains_ascii(b'b') && u.contains_ascii(b'c'));
    let i = ab.intersection(&bc);
    assert!(!i.contains_ascii(b'a') && i.contains_ascii(b'b') && !i.contains_ascii(b'c'));
    let c = ab.complement();
    assert!(!c.contains_ascii(b'a') && c.contains_ascii(b'z') && c.contains_ascii(0));
    assert!(ab.intersection(&ab.complement()).is_empty());
    assert!(CharSet::empty().complement().contains_ascii(b'q'));
}

#[test]
fn charset_unicode_ranges() {
    let mut s = CharSet::empty();
    s.insert('é');
    s.insert_range('α', 'ω');
    assert!(!s.is_empty());
    assert!(!s.contains_ascii(b'e'));
    let c = s.complement();
    assert!(c.contains_ascii(b'e'));
}

// ----- the builder -----

#[test]
fn builder_builtins_and_identities() {
    let mut b = RegexBuilder::new();
    let a = b.mk_singleton(CharSet::singleton('a'));
    assert_eq!(b.mk_concat(node_id::EPS, a), a);
    assert_eq!(b.mk_concat(a, node_id::EPS), a);
    assert_eq!(b.mk_concat(node_id::BOT, a), node_id::BOT);
    assert_eq!(b.mk_loop(a, 1, 1), a);
    assert_eq!(b.mk_loop(a, 0, 0), node_id::EPS);
    assert_eq!(b.mk_loop(node_id::TOP, 0, u32::MAX), node_id::TOP_STAR);
    assert_eq!(b.mk_or(vec![a, node_id::TOP_STAR]), node_id::TOP_STAR);
    assert_eq!(b.mk_and(vec![a, node_id::BOT]), node_id::BOT);
}

#[test]
fn builder_negation() {
    let mut b = RegexBuilder::new();
    let a = b.mk_singleton(CharSet::singleton('a'));
    let not_a = b.mk_not(a);
    assert_ne!(not_a, a);
    assert_eq!(b.mk_not(not_a), a);
    assert_eq!(b.mk_not(node_id::BOT), node_id::TOP_STAR);
    assert_eq!(b.mk_not(node_id::TOP_STAR), node_id::BOT);
}

#[test]
fn builder_interns_equal_nodes() {
    let mut b = RegexBuilder::new();
    let a1 = b.mk_singleton(CharSet::singleton('a'));
    let a2 = b.mk_singleton(CharSet::singleton('a'));
    assert_eq!(a1, a2);
    let x = b.mk_singleton(CharSet::singleton('x'));
    let c1 = b.mk_concat(a1, x);
    let c2 = b.mk_concat(a2, x);
    assert_eq!(c1, c2);
}

#[test]
fn nullability() {
    let mut b = RegexBuilder::new();
    let a = b.mk_singleton(CharSet::singleton('a'));
    let star = b.mk_loop(a, 0, u32::MAX);
    assert!(is_nullable(&b, LocationKind::Center, star));
    assert!(!is_nullable(&b, LocationKind::Center, a));
    assert!(is_nullable(&b, LocationKind::Center, node_id::EPS));
    assert!(!is_nullable(&b, LocationKind::Center, node_id::BOT));
    let begin = b.mk_begin();
    assert!(is_nullable(&b, LocationKind::Begin, begin));
    assert!(!is_nullable(&b, LocationKind::Center, begin));
}

// ----- small values -----

#[test]
fn utf8_widths() {
    assert_eq!(utf8_char_width(b'A'), 1);
    assert_eq!(utf8_char_width(0xC3), 2);
    assert_eq!(utf8_char_width(0xE2), 3);
    assert_eq!(utf8_char_width(0xF0), 4);
}

#[test]
fn match_values() {
    let m = Match::new(2, 5);
    assert_eq!(m.len(), 3);
    assert!(!m.is_empty());
    assert!(Match::new(4, 4).is_empty());
    assert_eq!(Match::new(0, 5).as_str("hello world"), "hello");
}

#[test]
fn flag_values() {
    let f = NodeFlags::from_bits(0x03);
    assert!(f.is_always_nullable());
    assert!(f.can_be_nullable());
    assert!(!f.contains_lookaround());
    let g = NodeFlags::from_bits(0x0C);
    assert!(g.contains_lookaround() && g.depends_on_anchor());
    assert_eq!(f.bitor(g).bits(), 0x0F);
    assert_eq!(f.bitand(g).bits(), 0);
    assert!(f.has(NodeFlags::from_bits(0x01)));
    let s = StateFlags::from_bits(0x01);
    assert!(s.is_initial());
    assert!(!s.can_be_nullable());
    assert!(StateFlags::from_bits(0x04).can_be_nullable());
    assert!(StateFlags::from_bits(0x40).is_always_nullable());
    assert!(StateFlags::from_bits(0x08).can_skip());
    assert!(s.bitor(StateFlags::from_bits(0x08)).can_skip());
}

#[test]
fn refsets_and_metachars() {
    assert!(RefSet::empty().is_empty());
    assert!(!RefSet::singleton(3).is_empty());
    assert!(is_metachar('*'));
    assert!(is_metachar(']'));
    assert!(!is_metachar('a'));
    assert!(!is_metachar('.'));
}

#[test]
fn derivative_of_a_character() {
    let mut b = RegexBuilder::new();
    let a = b.mk_singleton(CharSet::singleton('a'));
    let by_a = derivative(&mut b, LocationKind::Center, &CharSet::singleton('a'), a);
    assert_eq!(by_a, node_id::EPS);
    let by_b = derivative(&mut b, LocationKind::Center, &CharSet::singleton('b'), a);
    assert_eq!(by_b, node_id::BOT);
    let star = b.mk_loop(a, 0, u32::MAX);
    let d = derivative(&mut b, LocationKind::Center, &CharSet::singleton('a'), star);
    assert_eq!(d, star);
}

#[test]
fn pattern_meaning_examples() {
    // `(a|b)*c` holds exactly the words over a and b followed by one c.
    assert_eq!(find_span("(a|b)*c", "xxabbac"), Some((2, 7)));
    assert_eq!(find_span("(a|b)*c", "c"), Some((0, 1)));
    assert_eq!(find_span("(a|b)*c", "ab"), None);
    // Intersection keeps what both sides hold, complement what one lacks.
    assert_eq!(find_span("[a-z]+&_*x_*", "ab xyz"), Some((3, 6)));
    assert_eq!(find_span("[0-9]{2}&1_", "09 15"), Some((3, 5)));
}

#[test]
fn complement_is_exact_around_the_surrogates() {
    assert!(CharSet::full().complement().is_empty());
    let high = CharSet::range('\u{E000}', '\u{10FFFF}');
    let c = high.complement();
    assert!(c.contains_ascii(b'a'));
    assert!(!c.complement().is_empty());
    let below = CharSet::range('\u{80}', '\u{D7FF}').union(&CharSet::range('\u{E000}', '\u{10FFFF}'));
    let rest = below.complement();
    assert!(!rest.is_empty());
    assert!(rest.intersection(&CharSet::range('\u{80}', '\u{10FFFF}')).is_empty());
}

#[test]
fn derivative_of_top_is_epsilon() {
    let mut b = RegexBuilder::<CharSet>::new();
    let d = derivative(&mut b, LocationKind::Center, &CharSet::ascii_singleton(b'a'), node_id::TOP);
    assert_eq!(d, node_id::EPS);
    let d = derivative(&mut b, LocationKind::Center, &CharSet::ascii_singleton(b'a'), node_id::TOP_STAR);
    assert_eq!(d, node_id::TOP_STAR);
}

#[test]
fn a_zero_state_limit_fails_every_search() {
    let mut re = Regex::new("a").unwrap().with_state_limit(0);
    assert_eq!(re.find("a"), None);
    assert!(!re.is_match("a"));
    assert!(re.find_all("aaa").is_empty());
    let mut ok = Regex::new("a").unwrap().with_state_limit(100);
    assert!(ok.is_match("a"));
}

#[test]
fn empty_matches_are_not_repeated() {
    let mut re = Regex::new("a*").unwrap();
    let spans: Vec<(usize, usize)> = re.find_all("bab").iter().map(|m| (m.start, m.end)).collect();
    assert_eq!(spans, vec![(0, 0), (1, 2), (2, 2), (3, 3)]);
}

#[test]
fn complement_patterns_are_searched_at_every_position() {
    assert_eq!(find_span("~(ab)&a_*", "xa"), Some((1, 2)));
    assert!(!Regex::new("~(_*)").unwrap().is_match("abc"));
}

#[test]
fn end_anchor_holds_in_the_precomputed_table() {
    assert_eq!(find_span(r"\d$", "a1"), Some((1, 2)));
    assert_eq!(find_span(r"\d$", "1a"), None);
}

#[test]
fn complement_of_a_word_matches_its_longest_other_prefix() {
    assert_eq!(find_span("~(ab)", "ab"), Some((0, 1)));
    assert!(Regex::new("~(ab)").unwrap().is_match("ab"));
}

#[test]
fn find_all_starts_with_what_find_returns() {
    let mut re = Regex::new(r"\d+").unwrap();
    let first = re.find("ab12c345").map(|m| (m.start, m.end));
    let all: Vec<(usize, usize)> = re.find_all("ab12c345").iter().map(|m| (m.start, m.end)).collect();
    assert_eq!(first, Some((2, 4)));
    assert_eq!(all, vec![(2, 4), (5, 8)]);
}

// ----- searching input with non-ASCII characters -----

#[test]
fn find_all_runs_around_a_two_byte_character() {
    // 'é' is two bytes; neither of them is a lowercase ASCII letter.
    assert_eq!(all_spans("[a-z]+", "héllo"), vec![(0, 1), (3, 6)]);
}

#[test]
fn find_skips_to_the_next_character_start() {
    assert_eq!(find_span("[a-z]+", "éé abc"), Some((5, 8)));
    assert_eq!(find_span("b", "€b"), Some((3, 4)));
}

#[test]
fn find_all_resumes_after_a_match_that_ends_inside_a_character() {
    // `_` takes one byte, so the first match ends inside 'é'; the search then
    // moves byte by byte and still finds the 'b' after it.
    assert_eq!(all_spans("a_|b", "aéb"), vec![(0, 2), (3, 4)]);
}

#[test]
fn accelerated_patterns_on_non_ascii_input() {
    assert_eq!(find_span("cat", "çat cat"), Some((5, 8)));
    assert_eq!(all_spans("[xy]", "éxéy"), vec![(2, 3), (5, 6)]);
    assert_eq!(all_spans("ab", "ñab ab"), vec![(2, 4), (5, 7)]);
}

#[test]
fn alternation_ignores_order_repetition_and_bot() {
    let mut b = RegexBuilder::new();
    let a = b.mk_singleton(CharSet::singleton('a'));
    let x = b.mk_singleton(CharSet::singleton('x'));
    let y = b.mk_singleton(CharSet::singleton('y'));
    let first = b.mk_or(vec![a, x, y]);
    assert_eq!(b.mk_or(vec![y, node_id::BOT, a, x, a]), first);
    let nested = b.mk_or(vec![x, y]);
    assert_eq!(b.mk_or(vec![a, nested]), first);
    assert_eq!(b.mk_or(vec![a, a, node_id::BOT]), a);
    assert_eq!(b.mk_or(vec![node_id::BOT, node_id::BOT]), node_id::BOT);
}

#[test]
fn lone_anchors_and_flag_group_parse_to_fixed_nodes() {
    let (root, _) = Parser::new("^").parse().unwrap();
    assert_eq!(root, node_id::BEGIN_ANCHOR);
    let (root, _) = Parser::new("$").parse().unwrap();
    assert_eq!(root, node_id::END_ANCHOR);
    let (root, _) = Parser::new("(?m)").parse().unwrap();
    assert_eq!(root, node_id::EPS);
    let (root, _) = Parser::new("").parse().unwrap();
    assert_eq!(root, node_id::EPS);
}

#[test]
fn derivative_of_an_anchored_concatenation() {
    let mut b = RegexBuilder::new();
    let a = b.mk_singleton(CharSet::singleton('a'));
    let begin_a = b.mk_concat(node_id::BEGIN_ANCHOR, a);
    let minterm = CharSet::ascii_singleton(b'a');
    assert_eq!(derivative(&mut b, LocationKind::Begin, &minterm, begin_a), node_id::EPS);
    assert_eq!(derivative(&mut b, LocationKind::Center, &minterm, begin_a), node_id::BOT);
}

#[test]
fn lone_anchors_find_the_empty_match_at_their_end_of_the_input() {
    assert_eq!(find_span("^", "abc"), Some((0, 0)));
    assert_eq!(find_span("^", ""), Some((0, 0)));
    assert_eq!(find_span("$", "abc"), Some((3, 3)));
    assert_eq!(find_span("$", ""), Some((0, 0)));
    assert_eq!(find_span("^abc", "abc"), Some((0, 3)));
    assert_eq!(find_span("^$", ""), Some((0, 0)));
}

#[test]
fn find_gives_the_first_match_of_find_all() {
    for (pattern, input) in [("[a-z]+", "héllo"), ("b", "€b"), ("a_|b", "aéb"), ("x", "héllo"), ("cat", "çat cat")] {
        let first = all_spans(pattern, input).first().copied();
        assert_eq!(find_span(pattern, input), first, "{} on {}", pattern, input);
    }
}

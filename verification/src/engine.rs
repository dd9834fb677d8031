//! The matching engine: a DFA over derivatives, built lazily byte by byte,
//! with a table precomputed up front, a start set, and literal-prefix search.
//!
//! A byte string is matched as the characters its bytes stand for: byte `b`
//! is the character with code point `b`.

use vstd::prelude::*;
use vstd::string::StringSliceAdditionalSpecFns;
use vstd::utf8::{is_continuation_byte, valid_utf8};
use rustc_hash::FxHashMap;
use crate::algorithm::{derivative, derivative_post, end_accepts, end_form, end_step, is_derivative, is_nullable};
use crate::builder::{RegexBuilder, NODE_LIMIT};
use crate::charset::{byte_char, is_char_minterm, lemma_bits, CharSet, CharSetView};
use crate::fxmap::{id_map_get, id_map_insert, id_map_new, id_map_remove};
use crate::semantics::{
    accepts, complement_free, cons, lemma_complement_free_extend, node_ok, lemma_eps_bot, lemma_extend_all,
    lemma_extend_nullable, lemma_plain_nullable, nullable, plain, table_extends, table_wf, NodeTable,
};
use crate::types::node_id;
use crate::types::{bit_of, LocationKind, Match, NodeView, RegexNode, RegexNodeId};
use crate::parser::{lone_fixed_atom, Parser};
use crate::grammar::pattern_scan;
use crate::meaning::{ascii_word, lemma_means_extend, no_complement, node_means, pattern_lang, Lang};
use crate::{Error, Result};

verus! {

/// The most DFA states the matcher may create.
const DEFAULT_STATE_LIMIT: usize = 10000;

/// The most states of the table precomputed at construction.
const DEFAULT_PRECOMPUTE_LIMIT: usize = 1024;

/// Marks a transition that has not been computed yet.
const UNCOMPUTED: RegexNodeId = 4294967295;

/// Cached nullability: the state is nullable.
const NULLABLE: u8 = 1;

/// Cached nullability: the state is not nullable.
const NOT_NULLABLE: u8 = 2;

/// The characters a byte string stands for.
pub open spec fn byte_chars(bytes: Seq<u8>) -> Seq<char> {
    bytes.map_values(|b: u8| byte_char(b))
}

/// Node `root` accepts the bytes from `i` to `j`.
pub open spec fn matches_at(t: NodeTable, root: int, bytes: Seq<u8>, i: int, j: int) -> bool {
    accepts(t, root, byte_chars(bytes.subrange(i, j)))
}

/// `r` is the end of the longest match of `root` that starts at `start` and
/// ends at `lo` or later, or `None` when there is no such match.
pub open spec fn is_longest_beyond(
    t: NodeTable,
    root: int,
    bytes: Seq<u8>,
    start: int,
    lo: int,
    r: Option<usize>,
) -> bool {
    match r {
        Some(e) => lo <= e <= bytes.len() && matches_at(t, root, bytes, start, e as int) && forall|e2: int|
            e < e2 <= bytes.len() ==> !#[trigger] matches_at(t, root, bytes, start, e2),
        None => forall|e2: int| lo <= e2 <= bytes.len() ==> !#[trigger] matches_at(t, root, bytes, start, e2),
    }
}

/// `r` is the end of the longest match of `root` that starts at `start`, or
/// `None` when no match starts there.
pub open spec fn is_longest_from(t: NodeTable, root: int, bytes: Seq<u8>, start: int, r: Option<usize>) -> bool {
    is_longest_beyond(t, root, bytes, start, start, r)
}

/// `m` is a match of `root` in `bytes` that no longer match from the same
/// start extends.
pub open spec fn longest_match(t: NodeTable, root: int, bytes: Seq<u8>, m: Match) -> bool {
    &&& matches_at(t, root, bytes, m.start as int, m.end as int)
    &&& forall|e2: int| m.end < e2 <= bytes.len() ==> !#[trigger] matches_at(t, root, bytes, m.start as int, e2)
}

/// A list of matches in `bytes`: each within the input, each ending no
/// later than the next one starts.
pub open spec fn ordered_matches(ms: Seq<Match>, n: int) -> bool {
    &&& forall|k: int| 0 <= k < ms.len() ==> (#[trigger] ms[k]).start <= ms[k].end <= n
    &&& forall|k: int| 0 <= k < ms.len() - 1 ==> (#[trigger] ms[k]).end <= ms[k + 1].start
    &&& forall|k: int| 0 < k < ms.len() ==> ms[k].start >= #[trigger] resume_at(ms, k)
}

/// A search result: a match within the input that, where the laws apply,
/// is a longest match from its start.
pub open spec fn found(t: NodeTable, root: int, bytes: Seq<u8>, r: Option<Match>) -> bool {
    r matches Some(m) ==> m.start <= m.end <= bytes.len() && (laws_apply(t, root) ==> longest_match(t, root, bytes, m))
}

/// Position `q` begins a character of `bytes`, or is its end: the byte
/// there is no UTF-8 continuation byte.
pub open spec fn char_start(bytes: Seq<u8>, q: int) -> bool {
    q == bytes.len() || !is_continuation_byte(bytes[q])
}

/// No match of `root` starts at a character start before position `p`.
pub open spec fn none_before(t: NodeTable, root: int, bytes: Seq<u8>, p: int) -> bool {
    forall|q: int, e: int|
        0 <= q < p && q <= e <= bytes.len() && char_start(bytes, q) ==> !#[trigger] matches_at(t, root, bytes, q, e)
}

/// A search result is leftmost: no match starts before the one found, and
/// without a result there is no match at all.
pub open spec fn leftmost(t: NodeTable, root: int, bytes: Seq<u8>, r: Option<Match>) -> bool {
    match r {
        Some(m) => none_before(t, root, bytes, m.start as int),
        None => none_before(t, root, bytes, bytes.len() as int + 1),
    }
}

/// No match of `root` starts at a character start from `a` up to, not
/// including, `b`.
pub open spec fn no_match_in(t: NodeTable, root: int, bytes: Seq<u8>, a: int, b: int) -> bool {
    forall|q: int, e: int|
        a <= q < b && q <= e <= bytes.len() && char_start(bytes, q) ==> !#[trigger] matches_at(t, root, bytes, q, e)
}

/// Where the search for the next match resumes after the first `k`
/// matches: at the end of the last one, or one further after an empty one.
pub open spec fn resume_at(ms: Seq<Match>, k: int) -> int {
    if k <= 0 {
        0
    } else if ms[k - 1].end > ms[k - 1].start {
        ms[k - 1].end as int
    } else {
        ms[k - 1].end + 1
    }
}

/// The list ends with the empty match at the end of the input exactly when
/// the root is nullable there (at the end, or at the beginning and the end
/// of an empty input).
pub open spec fn end_match_iff_nullable(t: NodeTable, root: int, n: int, ms: Seq<Match>) -> bool {
    (ms.len() > 0 && ms.last() == Match { start: n as usize, end: n as usize }) == nullable(
        t,
        if n == 0 {
            LocationKind::BeginEnd
        } else {
            LocationKind::End
        },
        root,
    )
}

/// Each match is the first one from where the search resumed, and no
/// match starts after the last one.
pub open spec fn each_leftmost(t: NodeTable, root: int, bytes: Seq<u8>, ms: Seq<Match>) -> bool {
    &&& forall|k: int|
        0 <= k < ms.len() ==> no_match_in(t, root, bytes, resume_at(ms, k), #[trigger] ms[k].start as int)
    &&& no_match_in(t, root, bytes, resume_at(ms, ms.len() as int), bytes.len() as int + 1)
}

/// The match laws apply and the input is ASCII: where the searches that
/// skip ahead by a literal prefix or by start bytes, which only ASCII bytes
/// can be, find the leftmost match.
pub open spec fn search_laws_apply(t: NodeTable, root: int, bytes: Seq<u8>) -> bool {
    laws_apply(t, root) && ascii_bytes(bytes)
}

/// All matches of a list are longest matches from their starts, where the
/// laws apply.
pub open spec fn all_longest(t: NodeTable, root: int, bytes: Seq<u8>, ms: Seq<Match>) -> bool {
    laws_apply(t, root) ==> forall|k: int| 0 <= k < ms.len() ==> longest_match(t, root, bytes, #[trigger] ms[k])
}

/// The table has room, and `root` has no anchor or lookaround: the case
/// where the match laws hold.
pub open spec fn laws_apply(t: NodeTable, root: int) -> bool {
    t.len() < NODE_LIMIT && plain(t, root)
}

/// How a literal prefix or a few start bytes speed up the search.
#[derive(Debug, Clone)]
enum PrefixAccelerator {
    /// No acceleration.
    Plain,
    /// A one-byte literal prefix.
    SingleByte(u8),
    /// A literal prefix of several bytes.
    Literal(Vec<u8>),
    /// One to three ASCII bytes that every match starts with.
    StartBytes(Vec<u8>),
}

/// The precomputed DFA: a flat table with one row of 256 next states per
/// state, and the nullability of each state.
struct PrecomputedDfa {
    /// `transitions[i * 256 + b]`: the state after byte `b` in state `i`.
    transitions: Vec<u32>,
    /// Whether each state is nullable in the middle of the input.
    nullable: Vec<bool>,
    /// Whether each state is nullable at the end of the input.
    nullable_end: Vec<bool>,
    /// The node of each state.
    states: Ghost<Seq<RegexNodeId>>,
}

/// A compiled regular expression. Matching is leftmost-longest.
pub struct Regex {
    builder: RegexBuilder<CharSet>,
    root: RegexNodeId,
    /// Cached transitions: a row of 256 next states per state.
    transitions: FxHashMap<RegexNodeId, Vec<RegexNodeId>>,
    /// How many states have a row of cached transitions (held at
    /// `u64::MAX` from there on).
    state_count: u64,
    /// Cached nullability in the middle of the input.
    nullable_cache: FxHashMap<RegexNodeId, u8>,
    /// The ASCII bytes that can begin a match.
    startset: u128,
    /// Whether the pattern matches the empty word at the start.
    nullable_at_start: bool,
    state_limit: usize,
    prefix_accel: PrefixAccelerator,
    /// The state after the literal prefix.
    prefix_end_state: Option<RegexNodeId>,
    precomputed_dfa: Option<PrecomputedDfa>,
}

/// At the start of a non-empty input, a root that is the `^` anchor
/// matches the empty word and nothing longer.
#[verifier::opaque]
pub open spec fn begin_root_result(t: NodeTable, root: int, start: int, n: int, r: Option<usize>) -> bool {
    start == 0 && n > 0 && t[root] is Begin ==> r == Some(0usize)
}

/// A pattern that begins with the `^` anchor.
pub open spec fn begin_head(t: NodeTable, s: int) -> bool {
    &&& 0 <= s < t.len()
    &&& t[s] is Concat
    &&& 0 <= t[s]->head < t.len()
    &&& t[t[s]->head as int] is Begin
}

/// A pattern that is the `^` anchor followed by a pattern without anchors
/// or lookarounds.
pub open spec fn begin_form(t: NodeTable, s: int) -> bool {
    &&& begin_head(t, s)
    &&& plain(t, t[s]->tail as int)
}

/// For a pattern that is `^` followed by a plain pattern, the match from
/// the start of the input is the longest prefix of the input that the plain
/// pattern accepts; for a pattern that begins with `^`, no match starts
/// anywhere else.
#[verifier::opaque]
pub open spec fn begin_form_result(t: NodeTable, root: int, bytes: Seq<u8>, start: int, r: Option<usize>) -> bool {
    &&& begin_form(t, root) && t.len() < NODE_LIMIT && start == 0 ==> is_longest_from(t, t[root]->tail as int, bytes, 0, r)
    &&& begin_head(t, root) && start > 0 ==> r is None
}

/// The plain pattern accepts no prefix of the input.
pub open spec fn no_prefix_match(t: NodeTable, p: int, bytes: Seq<u8>) -> bool {
    forall|e: int| 0 <= e <= bytes.len() ==> !#[trigger] matches_at(t, p, bytes, 0, e)
}

/// The search result of a pattern that is `^` followed by a plain pattern:
/// the longest prefix of the input that the plain pattern accepts, or none
/// where it accepts none.
pub open spec fn begin_search_result(t: NodeTable, root: int, bytes: Seq<u8>, r: Option<Match>) -> bool {
    match r {
        Some(m) => m.start == 0 && longest_match(t, t[root]->tail as int, bytes, m),
        None => no_prefix_match(t, t[root]->tail as int, bytes),
    }
}

/// The matches of a pattern that is `^` followed by a plain pattern: the
/// longest prefix of the input that the plain pattern accepts, alone, or
/// none where it accepts none.
pub open spec fn begin_all_result(t: NodeTable, root: int, bytes: Seq<u8>, ms: Seq<Match>) -> bool {
    ||| ms.len() == 0 && no_prefix_match(t, t[root]->tail as int, bytes)
    ||| ms.len() == 1 && ms[0].start == 0 && longest_match(t, t[root]->tail as int, bytes, ms[0])
}

/// The matches found so far of a pattern that is `^` followed by a plain
/// pattern, searching from `pos`.
#[verifier::opaque]
spec fn begin_all_upto(t: NodeTable, root: int, bytes: Seq<u8>, ms: Seq<Match>, pos: int) -> bool {
    ||| ms.len() == 0 && (pos > 0 ==> no_prefix_match(t, t[root]->tail as int, bytes))
    ||| ms.len() == 1 && ms[0].start == 0 && longest_match(t, t[root]->tail as int, bytes, ms[0])
}

/// What a pattern that begins with `^` is, and its search result, survive
/// the growth of the table.
proof fn lemma_begin_extend(t1: NodeTable, t2: NodeTable, root: int, bytes: Seq<u8>)
    requires
        table_extends(t1, t2),
        table_wf(t1),
        0 <= root < t1.len(),
    ensures
        begin_head(t2, root) == begin_head(t1, root),
        begin_form(t2, root) == begin_form(t1, root),
        t2[root] == t1[root],
        begin_form(t1, root) ==> no_prefix_match(t2, t1[root]->tail as int, bytes) == no_prefix_match(
            t1,
            t1[root]->tail as int,
            bytes,
        ),
        begin_form(t1, root) ==> forall|r: Option<Match>| #[trigger]
            begin_search_result(t2, root, bytes, r) == begin_search_result(t1, root, bytes, r),
        begin_form(t1, root) ==> forall|ms: Seq<Match>, pos: int| #[trigger]
            begin_all_upto(t2, root, bytes, ms, pos) == begin_all_upto(t1, root, bytes, ms, pos),
{
    assert(t2[root] == t1[root]);
    if t1[root] is Concat {
        assert(node_ok(t1[root], root));
        let h = t1[root]->head as int;
        let p = t1[root]->tail as int;
        assert(t2[h] == t1[h]);
        lemma_extend_all(t1, t2, p);
        if no_prefix_match(t1, p, bytes) {
            assert forall|e: int| 0 <= e <= bytes.len() implies !#[trigger] matches_at(t2, p, bytes, 0, e) by {
                assert(!matches_at(t1, p, bytes, 0, e));
            }
        }
        if no_prefix_match(t2, p, bytes) {
            assert forall|e: int| 0 <= e <= bytes.len() implies !#[trigger] matches_at(t1, p, bytes, 0, e) by {
                assert(!matches_at(t2, p, bytes, 0, e));
            }
        }
        assert forall|r: Option<Match>| #[trigger] begin_search_result(t2, root, bytes, r) == begin_search_result(
            t1,
            root,
            bytes,
            r,
        ) by {
            if let Some(m) = r {
                assert(matches_at(t2, p, bytes, m.start as int, m.end as int) == matches_at(
                    t1,
                    p,
                    bytes,
                    m.start as int,
                    m.end as int,
                ));
                if longest_match(t1, p, bytes, m) {
                    assert forall|e2: int| m.end < e2 <= bytes.len() implies !#[trigger] matches_at(
                        t2,
                        p,
                        bytes,
                        m.start as int,
                        e2,
                    ) by {
                        assert(!matches_at(t1, p, bytes, m.start as int, e2));
                    }
                }
                if longest_match(t2, p, bytes, m) {
                    assert forall|e2: int| m.end < e2 <= bytes.len() implies !#[trigger] matches_at(
                        t1,
                        p,
                        bytes,
                        m.start as int,
                        e2,
                    ) by {
                        assert(!matches_at(t2, p, bytes, m.start as int, e2));
                    }
                }
            }
        }
        reveal(begin_all_upto);
        assert forall|ms: Seq<Match>, pos: int| #[trigger] begin_all_upto(t2, root, bytes, ms, pos) == begin_all_upto(
            t1,
            root,
            bytes,
            ms,
            pos,
        ) by {
            if ms.len() == 1 {
                assert(begin_search_result(t2, root, bytes, Some(ms[0])) == begin_search_result(
                    t1,
                    root,
                    bytes,
                    Some(ms[0]),
                ));
            }
        }
    }
}

/// The search of a pattern that is `^` followed by a plain pattern begins
/// with no match found.
proof fn lemma_begin_all_start(t: NodeTable, root: int, bytes: Seq<u8>)
    ensures
        begin_all_upto(t, root, bytes, Seq::<Match>::empty(), 0),
{
    reveal(begin_all_upto);
}

/// The search of a pattern that is `^` followed by a plain pattern goes on
/// past the start of the input once no prefix can match or one was found.
proof fn lemma_begin_all_skip(t: NodeTable, root: int, bytes: Seq<u8>, ms: Seq<Match>, pos: int, stop: int)
    requires
        begin_all_upto(t, root, bytes, ms, pos),
        0 <= pos <= stop,
        pos == 0 && stop > 0 && ms.len() == 0 ==> no_prefix_match(t, t[root]->tail as int, bytes),
    ensures
        begin_all_upto(t, root, bytes, ms, stop),
{
    reveal(begin_all_upto);
}

/// What matching from `pos` gives joins the matches of a pattern that is
/// `^` followed by a plain pattern.
proof fn lemma_begin_all_found(t: NodeTable, root: int, bytes: Seq<u8>, ms: Seq<Match>, pos: usize, r: Option<usize>)
    requires
        begin_all_upto(t, root, bytes, ms, pos as int),
        resume_at(ms, ms.len() as int) <= pos,
        pos == 0 ==> is_longest_from(t, t[root]->tail as int, bytes, 0, r),
        pos > 0 ==> r is None,
    ensures
        r matches Some(e) ==> forall|x: int|
            #[trigger] begin_all_upto(t, root, bytes, ms.push(Match { start: pos, end: e }), x),
        r is None ==> begin_all_upto(t, root, bytes, ms, pos + 1),
{
    reveal(begin_all_upto);
    if pos == 0 && ms.len() == 1 {
        assert(resume_at(ms, 1) >= 1);
    }
    if let Some(e) = r {
        let ms2 = ms.push(Match { start: pos, end: e });
        assert(ms2[0] == Match { start: pos, end: e });
    }
}

/// The search of a pattern that is `^` followed by a plain pattern, run to
/// the end of a non-empty input, gives its matches.
proof fn lemma_begin_all_done(t: NodeTable, root: int, bytes: Seq<u8>, ms: Seq<Match>)
    requires
        begin_all_upto(t, root, bytes, ms, bytes.len() as int),
        bytes.len() > 0,
    ensures
        begin_all_result(t, root, bytes, ms),
{
    reveal(begin_all_upto);
}

/// A pattern that begins with `^` has no literal prefix.
proof fn lemma_begin_no_prefix(t: NodeTable, root: int, p: Seq<u8>)
    requires
        table_wf(t),
        p.len() >= 1,
        literal_prefix_of(t, root, p),
    ensures
        !begin_head(t, root),
{
    if begin_head(t, root) {
        if exists|target: int| literal_chain(t, root, p, target) {
            let target = choose|target: int| literal_chain(t, root, p, target);
            assert(literal_chain(t, root, p, target));
            assert(single_byte_node(t, t[root]->head as int, p[0]));
        } else {
            assert(single_byte_node(t, root, p[0]));
        }
    }
}

/// A pattern that is `^` followed by a plain pattern, and not nullable at
/// the start, matches no prefix of an input whose first byte is ASCII and
/// outside its start set.
proof fn lemma_begin_skip_zero(t: NodeTable, root: int, bytes: Seq<u8>)
    requires
        table_wf(t),
        begin_form(t, root),
        bytes.len() > 0,
        bytes[0] < 128,
        !bit_of(first_bytes(t, root), bytes[0] as u32),
        !nullable(t, LocationKind::Begin, root),
    ensures
        no_prefix_match(t, t[root]->tail as int, bytes),
{
    let h = t[root]->head as int;
    let p = t[root]->tail as int;
    assert(node_ok(t[root], root));
    assert(nullable(t, LocationKind::Begin, h));
    lemma_plain_nullable(t, LocationKind::Begin, p);
    assert(first_bytes(t, h) == 0u128);
    let fp = first_bytes(t, p);
    assert(0u128 | fp == fp) by (bit_vector);
    assert(first_bytes(t, root) == fp);
    assert forall|e: int| 0 <= e <= bytes.len() implies !#[trigger] matches_at(t, p, bytes, 0, e) by {
        let w = byte_chars(bytes.subrange(0, e));
        if e == 0 {
            assert(w =~= Seq::<char>::empty());
        } else if matches_at(t, p, bytes, 0, e) {
            assert(w[0] == byte_char(bytes[0]));
            vstd::utf8::char_u32_cast(byte_char(bytes[0]), bytes[0] as u32);
            lemma_startset_sound(t, p, w);
        }
    }
}

/// A pattern that is `^` followed by a plain pattern, and not nullable at
/// the start, matches no prefix of an ASCII input whose first byte is not
/// among bytes that hold its start set.
proof fn lemma_begin_skip_start_bytes(t: NodeTable, root: int, bytes: Seq<u8>, sb: Seq<u8>)
    requires
        table_wf(t),
        begin_form(t, root),
        ascii_bytes(bytes),
        bytes.len() > 0,
        !sb.contains(bytes[0]),
        forall|i: int| 0 <= i < 128 && #[trigger] bit_of(first_bytes(t, root), i as u32) ==> sb.contains(i as u8),
        !nullable(t, LocationKind::Begin, root),
    ensures
        no_prefix_match(t, t[root]->tail as int, bytes),
{
    assert(bytes[0] < 128);
    if bit_of(first_bytes(t, root), bytes[0] as u32) {
        assert(sb.contains((bytes[0] as u32 as int) as u8));
    }
    lemma_begin_skip_zero(t, root, bytes);
}

/// For a pattern that ends in `$` (a plain pattern followed by the anchor),
/// the match from `start` is the whole rest of the input, found exactly when
/// the pattern accepts that rest with `$` holding at the end of the input.
#[verifier::opaque]
pub open spec fn end_root_result(t: NodeTable, root: int, bytes: Seq<u8>, start: int, r: Option<usize>) -> bool {
    end_form(t, root) && t.len() < NODE_LIMIT ==> r == (if end_accepts(
        t,
        root,
        byte_chars(bytes.subrange(start, bytes.len() as int)),
    ) {
        Some(bytes.len() as usize)
    } else {
        None
    })
}

/// For a pattern ending in `$`: from no character start before `p` does
/// the pattern accept the rest of the input.
pub open spec fn no_end_match_before(t: NodeTable, root: int, bytes: Seq<u8>, p: int) -> bool {
    forall|q: int|
        0 <= q < p && q <= bytes.len() && char_start(bytes, q) ==> !#[trigger] end_accepts(
            t,
            root,
            byte_chars(bytes.subrange(q, bytes.len() as int)),
        )
}

/// The search result of a pattern ending in `$`: the match that runs from
/// the first character start from which the pattern accepts the rest of the
/// input up to its end; none where there is no such start.
pub open spec fn end_search_result(t: NodeTable, root: int, bytes: Seq<u8>, r: Option<Match>) -> bool {
    match r {
        Some(m) => {
            &&& m.end == bytes.len()
            &&& m.start <= bytes.len()
            &&& char_start(bytes, m.start as int)
            &&& end_accepts(t, root, byte_chars(bytes.subrange(m.start as int, bytes.len() as int)))
            &&& no_end_match_before(t, root, bytes, m.start as int)
        },
        None => no_end_match_before(t, root, bytes, bytes.len() as int + 1),
    }
}

/// The search result of a pattern ending in `$` survives the growth of the
/// table.
proof fn lemma_end_search_extend(t1: NodeTable, t2: NodeTable, root: int, bytes: Seq<u8>, p: int)
    requires
        table_extends(t1, t2),
        table_wf(t1),
        0 <= root < t1.len(),
    ensures
        end_form(t2, root) == end_form(t1, root),
        no_end_match_before(t2, root, bytes, p) == no_end_match_before(t1, root, bytes, p),
        forall|r: Option<Match>| #[trigger] end_search_result(t2, root, bytes, r) == end_search_result(t1, root, bytes, r),
{
    lemma_end_extend(t1, t2, root);
    assert forall|x: int| #[trigger] no_end_match_before(t2, root, bytes, x) == no_end_match_before(t1, root, bytes, x) by {
        if no_end_match_before(t1, root, bytes, x) {
            assert forall|q: int| 0 <= q < x && q <= bytes.len() && char_start(bytes, q) implies !#[trigger] end_accepts(
                t2,
                root,
                byte_chars(bytes.subrange(q, bytes.len() as int)),
            ) by {
                assert(!end_accepts(t1, root, byte_chars(bytes.subrange(q, bytes.len() as int))));
            }
        }
        if no_end_match_before(t2, root, bytes, x) {
            assert forall|q: int| 0 <= q < x && q <= bytes.len() && char_start(bytes, q) implies !#[trigger] end_accepts(
                t1,
                root,
                byte_chars(bytes.subrange(q, bytes.len() as int)),
            ) by {
                assert(!end_accepts(t2, root, byte_chars(bytes.subrange(q, bytes.len() as int))));
            }
        }
    }
    assert forall|r: Option<Match>| #[trigger] end_search_result(t2, root, bytes, r) == end_search_result(t1, root, bytes, r) by {
        if let Some(m) = r {
            assert(no_end_match_before(t2, root, bytes, m.start as int) == no_end_match_before(t1, root, bytes, m.start as int));
            assert(end_accepts(t2, root, byte_chars(bytes.subrange(m.start as int, bytes.len() as int))) == end_accepts(
                t1,
                root,
                byte_chars(bytes.subrange(m.start as int, bytes.len() as int)),
            ));
        } else {
            assert(no_end_match_before(t2, root, bytes, bytes.len() as int + 1) == no_end_match_before(t1, root, bytes, bytes.len() as int + 1));
        }
    }
}

/// A pattern ending in `$` accepts no rest of the input that begins with an
/// ASCII byte outside its start set.
proof fn lemma_end_start_byte_excluded(t: NodeTable, root: int, bytes: Seq<u8>, q: int)
    requires
        table_wf(t),
        end_form(t, root),
        0 <= q < bytes.len(),
        bytes[q] < 128,
        !bit_of(first_bytes(t, root), bytes[q] as u32),
    ensures
        !end_accepts(t, root, byte_chars(bytes.subrange(q, bytes.len() as int))),
{
    let w = byte_chars(bytes.subrange(q, bytes.len() as int));
    if root != 0 && root != 5 && end_accepts(t, root, w) {
        assert(t[root] is Concat);
        assert(root >= 7) by {
            assert(!(t[1] is Concat) && !(t[2] is Concat) && !(t[3] is Concat) && !(t[4] is Concat) && !(t[6] is Concat));
        }
        assert(node_ok(t[root], root));
        let h = t[root]->head as int;
        assert(w.len() == bytes.len() - q);
        assert(w[0] == byte_char(bytes[q]));
        vstd::utf8::char_u32_cast(byte_char(bytes[q]), bytes[q] as u32);
        lemma_startset_sound(t, h, w);
        let fh = first_bytes(t, h);
        assert(first_bytes(t, 5) == 0u128);
        assert(fh | 0u128 == fh) by (bit_vector);
        assert(first_bytes(t, root) == fh);
    }
}

/// Where a pattern ending in `$` accepts no rest of the input from a
/// character start `q`, the search goes on from the next character start.
proof fn lemma_end_none_step(t: NodeTable, root: int, bytes: Seq<u8>, q: int)
    requires
        valid_utf8(bytes),
        0 <= q < bytes.len(),
        no_end_match_before(t, root, bytes, q),
        !end_accepts(t, root, byte_chars(bytes.subrange(q, bytes.len() as int))),
    ensures
        no_end_match_before(t, root, bytes, step_from(q, bytes[q], bytes.len() as int)),
{
    if !is_continuation_byte(bytes[q]) {
        lemma_char_tail(bytes, q);
        assert forall|k: int| q < k < step_from(q, bytes[q], bytes.len() as int) implies !char_start(bytes, k) by {
            assert(is_continuation_byte(bytes[k]));
        }
    }
}

/// Positions whose byte is outside the start set start no match of a
/// pattern ending in `$`.
proof fn lemma_end_start_bytes_gap(
    t: NodeTable,
    root: int,
    bytes: Seq<u8>,
    sb: Seq<u8>,
    start: int,
    stop: int,
)
    requires
        table_wf(t),
        end_form(t, root),
        ascii_bytes(bytes),
        forall|i: int| 0 <= i < 128 && #[trigger] bit_of(first_bytes(t, root), i as u32) ==> sb.contains(i as u8),
        0 <= start <= stop <= bytes.len(),
        forall|j: int| 0 <= j < stop - start ==> !sb.contains(#[trigger] bytes[start + j]),
    ensures
        no_end_match_in(t, root, bytes, start, stop),
{
    assert forall|q: int| start <= q < stop && q <= bytes.len() && char_start(bytes, q) implies !#[trigger] end_accepts(
        t,
        root,
        byte_chars(bytes.subrange(q, bytes.len() as int)),
    ) by {
        assert(bytes[start + (q - start)] == bytes[q]);
        assert(bytes[q] < 128);
        if bit_of(first_bytes(t, root), bytes[q] as u32) {
            assert(sb.contains((bytes[q] as u32 as int) as u8));
        }
        lemma_end_start_byte_excluded(t, root, bytes, q);
    }
}

/// No match of a pattern ending in `$` starts before `stop` where none
/// starts before `start` and the bytes between are outside the start set.
proof fn lemma_end_skip_non_start_bytes(
    t: NodeTable,
    root: int,
    bytes: Seq<u8>,
    sb: Seq<u8>,
    start: int,
    stop: int,
)
    requires
        table_wf(t),
        end_form(t, root),
        ascii_bytes(bytes),
        forall|i: int| 0 <= i < 128 && #[trigger] bit_of(first_bytes(t, root), i as u32) ==> sb.contains(i as u8),
        0 <= start <= stop <= bytes.len(),
        no_end_match_before(t, root, bytes, start),
        forall|j: int| 0 <= j < stop - start ==> !sb.contains(#[trigger] bytes[start + j]),
    ensures
        no_end_match_before(t, root, bytes, stop),
{
    lemma_end_start_bytes_gap(t, root, bytes, sb, start, stop);
    assert forall|q: int| 0 <= q < stop && q <= bytes.len() && char_start(bytes, q) implies !#[trigger] end_accepts(
        t,
        root,
        byte_chars(bytes.subrange(q, bytes.len() as int)),
    ) by {
        if q >= start {
            assert(no_end_match_in(t, root, bytes, start, stop));
        }
    }
}

/// One more position from which a pattern ending in `$` accepts no rest of
/// the input.
proof fn lemma_end_skip_one(t: NodeTable, root: int, bytes: Seq<u8>, q: int)
    requires
        no_end_match_before(t, root, bytes, q),
        !end_accepts(t, root, byte_chars(bytes.subrange(q, bytes.len() as int))),
    ensures
        no_end_match_before(t, root, bytes, q + 1),
{
}

/// A root with a literal prefix of at least two bytes does not end in `$`
/// right after its first item.
proof fn lemma_end_no_long_prefix(t: NodeTable, root: int, p: Seq<u8>)
    requires
        table_wf(t),
        p.len() >= 2,
        literal_prefix_of(t, root, p),
    ensures
        !end_form(t, root),
{
    if end_form(t, root) {
        let target = choose|target: int| literal_chain(t, root, p, target);
        assert(literal_chain(t, root, p, target));
        assert(t[root] is Concat);
        assert(literal_chain(t, 5, p.drop_first(), target));
        assert(t[5] is End);
    }
}

/// A pattern ending in `$` whose one item is the byte `b` accepts no rest of
/// an ASCII input that begins elsewhere than at a `b`.
proof fn lemma_end_single_byte_gap(t: NodeTable, root: int, bytes: Seq<u8>, b: u8, start: int, stop: int)
    requires
        table_wf(t),
        end_form(t, root),
        ascii_bytes(bytes),
        literal_prefix_of(t, root, seq![b]),
        0 <= start <= stop <= bytes.len(),
        forall|q: int| start <= q < stop ==> #[trigger] bytes[q] != b,
    ensures
        no_end_match_in(t, root, bytes, start, stop),
{
    assert forall|q: int| start <= q < stop && q <= bytes.len() && char_start(bytes, q) implies !#[trigger] end_accepts(
        t,
        root,
        byte_chars(bytes.subrange(q, bytes.len() as int)),
    ) by {
        if q >= start {
            let w = byte_chars(bytes.subrange(q, bytes.len() as int));
            if end_accepts(t, root, w) {
                lemma_stretch_ascii(bytes, q, bytes.len() as int);
                assert(!single_byte_node(t, root, b));
                let target = choose|target: int| literal_chain(t, root, seq![b], target);
                assert(literal_chain(t, root, seq![b], target));
                assert(t[root] is Concat);
                let h = t[root]->head as int;
                assert(single_byte_node(t, h, b));
                assert(accepts(t, h, w));
                lemma_single_byte_accepts(t, h, b, w);
                assert(w[0] == byte_char(bytes[q]));
                lemma_byte_char_inj(bytes[q], b);
            }
        }
    }
}

/// No match of a pattern ending in `$` whose one item is the byte `b`
/// starts before `stop` where none starts before `start` and no `b` lies
/// between.
proof fn lemma_end_single_byte_skip(t: NodeTable, root: int, bytes: Seq<u8>, b: u8, start: int, stop: int)
    requires
        table_wf(t),
        end_form(t, root),
        ascii_bytes(bytes),
        literal_prefix_of(t, root, seq![b]),
        0 <= start <= stop <= bytes.len(),
        no_end_match_before(t, root, bytes, start),
        forall|q: int| start <= q < stop ==> #[trigger] bytes[q] != b,
    ensures
        no_end_match_before(t, root, bytes, stop),
{
    lemma_end_single_byte_gap(t, root, bytes, b, start, stop);
    assert forall|q: int| 0 <= q < stop && q <= bytes.len() && char_start(bytes, q) implies !#[trigger] end_accepts(
        t,
        root,
        byte_chars(bytes.subrange(q, bytes.len() as int)),
    ) by {
        if q >= start {
            assert(no_end_match_in(t, root, bytes, start, stop));
        }
    }
}

/// For a pattern ending in `$`: from no character start from `a` up to,
/// not including, `b` does the pattern accept the rest of the input.
pub open spec fn no_end_match_in(t: NodeTable, root: int, bytes: Seq<u8>, a: int, b: int) -> bool {
    forall|q: int|
        a <= q < b && q <= bytes.len() && char_start(bytes, q) ==> !#[trigger] end_accepts(
            t,
            root,
            byte_chars(bytes.subrange(q, bytes.len() as int)),
        )
}

/// The matches of a pattern ending in `$`, up to position `p`: each runs to
/// the end of the input from the first character start, from where the
/// search resumed, from which the pattern accepts the rest of the input;
/// after the last one, no such start comes before `p`.
pub open spec fn end_matches_upto(t: NodeTable, root: int, bytes: Seq<u8>, ms: Seq<Match>, p: int) -> bool {
    &&& forall|k: int|
        0 <= k < ms.len() ==> (#[trigger] ms[k]).end == bytes.len() && end_accepts(
            t,
            root,
            byte_chars(bytes.subrange(ms[k].start as int, bytes.len() as int)),
        ) && no_end_match_in(t, root, bytes, resume_at(ms, k), ms[k].start as int)
    &&& no_end_match_in(t, root, bytes, resume_at(ms, ms.len() as int), p)
}

/// The matches of a pattern ending in `$` survive the growth of the table.
proof fn lemma_end_matches_extend(t1: NodeTable, t2: NodeTable, root: int, bytes: Seq<u8>, ms: Seq<Match>, p: int)
    requires
        table_extends(t1, t2),
        table_wf(t1),
        0 <= root < t1.len(),
        end_matches_upto(t1, root, bytes, ms, p),
    ensures
        end_matches_upto(t2, root, bytes, ms, p),
{
    lemma_end_extend(t1, t2, root);
    assert forall|a: int, b: int| #[trigger] no_end_match_in(t1, root, bytes, a, b) implies no_end_match_in(
        t2,
        root,
        bytes,
        a,
        b,
    ) by {
        assert forall|q: int| a <= q < b && q <= bytes.len() && char_start(bytes, q) implies !#[trigger] end_accepts(
            t2,
            root,
            byte_chars(bytes.subrange(q, bytes.len() as int)),
        ) by {
            assert(!end_accepts(t1, root, byte_chars(bytes.subrange(q, bytes.len() as int))));
        }
    }
    assert forall|k: int| 0 <= k < ms.len() implies (#[trigger] ms[k]).end == bytes.len() && end_accepts(
        t2,
        root,
        byte_chars(bytes.subrange(ms[k].start as int, bytes.len() as int)),
    ) && no_end_match_in(t2, root, bytes, resume_at(ms, k), ms[k].start as int) by {
        assert(no_end_match_in(t1, root, bytes, resume_at(ms, k), ms[k].start as int));
    }
    assert(no_end_match_in(t1, root, bytes, resume_at(ms, ms.len() as int), p));
}

/// The search for the next match of a pattern ending in `$` goes past a
/// position that starts no character or from which the pattern does not
/// accept the rest of the input.
proof fn lemma_end_gap_grow(t: NodeTable, root: int, bytes: Seq<u8>, ms: Seq<Match>, p: int)
    requires
        end_matches_upto(t, root, bytes, ms, p),
        resume_at(ms, ms.len() as int) <= p,
        p > bytes.len() || !char_start(bytes, p) || !end_accepts(
            t,
            root,
            byte_chars(bytes.subrange(p, bytes.len() as int)),
        ),
    ensures
        end_matches_upto(t, root, bytes, ms, p + 1),
{
}

/// The search for the next match of a pattern ending in `$` goes on from
/// the next character start.
proof fn lemma_end_gap_step(t: NodeTable, root: int, bytes: Seq<u8>, ms: Seq<Match>, q: int)
    requires
        valid_utf8(bytes),
        0 <= q < bytes.len(),
        resume_at(ms, ms.len() as int) <= q,
        end_matches_upto(t, root, bytes, ms, q + 1),
    ensures
        end_matches_upto(t, root, bytes, ms, step_from(q, bytes[q], bytes.len() as int)),
{
    if !is_continuation_byte(bytes[q]) {
        lemma_char_tail(bytes, q);
        assert forall|k: int| q < k < step_from(q, bytes[q], bytes.len() as int) implies !char_start(bytes, k) by {
            assert(is_continuation_byte(bytes[k]));
        }
    }
}

/// The search for the next match of a pattern ending in `$` goes past a
/// stretch from which the pattern accepts no rest of the input.
proof fn lemma_end_gap_join(t: NodeTable, root: int, bytes: Seq<u8>, ms: Seq<Match>, a: int, b: int)
    requires
        end_matches_upto(t, root, bytes, ms, a),
        resume_at(ms, ms.len() as int) <= a <= b,
        no_end_match_in(t, root, bytes, a, b),
    ensures
        end_matches_upto(t, root, bytes, ms, b),
{
}

/// A match of a pattern ending in `$` found where the search resumed joins
/// the list.
proof fn lemma_end_matches_push(t: NodeTable, root: int, bytes: Seq<u8>, ms: Seq<Match>, m: Match)
    requires
        end_matches_upto(t, root, bytes, ms, m.start as int),
        resume_at(ms, ms.len() as int) <= m.start,
        m.start <= bytes.len(),
        m.end == bytes.len(),
        end_accepts(t, root, byte_chars(bytes.subrange(m.start as int, bytes.len() as int))),
    ensures
        end_matches_upto(t, root, bytes, ms.push(m), bytes.len() as int),
{
    let ms2 = ms.push(m);
    assert forall|k: int| 0 <= k <= ms.len() implies resume_at(ms2, k) == resume_at(ms, k) by {
        if k > 0 {
            assert(ms2[k - 1] == ms[k - 1]);
        }
    }
    assert forall|k: int| 0 <= k < ms2.len() implies (#[trigger] ms2[k]).end == bytes.len() && end_accepts(
        t,
        root,
        byte_chars(bytes.subrange(ms2[k].start as int, bytes.len() as int)),
    ) && no_end_match_in(t, root, bytes, resume_at(ms2, k), ms2[k].start as int) by {
        if k < ms.len() {
            assert(ms2[k] == ms[k]);
        }
    }
}

/// A state of a pattern ending in `$` is nullable only at the end of the
/// input, and there exactly when it accepts the empty word up to the end.
proof fn lemma_end_nullable(t: NodeTable, loc: LocationKind, s: int)
    requires
        table_wf(t),
        end_form(t, s),
    ensures
        nullable(t, loc, s) == (loc.spec_is_end() && end_accepts(t, s, Seq::<char>::empty())),
{
    if s != 0 && s != 5 {
        assert(t[s] is Concat);
        assert(s >= 7) by {
            assert(!(t[1] is Concat) && !(t[2] is Concat) && !(t[3] is Concat) && !(t[4] is Concat) && !(t[6] is Concat));
        }
        assert(node_ok(t[s], s));
        lemma_plain_nullable(t, loc, t[s]->head as int);
        assert(nullable(t, loc, 5) == loc.spec_is_end());
        assert(nullable(t, loc, s) == (nullable(t, loc, t[s]->head as int) && nullable(t, loc, 5)));
    }
}

/// Reading one more byte keeps what the state accepts up to the end in step
/// with what the root accepts after the bytes read.
proof fn lemma_end_residual(
    t1: NodeTable,
    t2: NodeTable,
    root: int,
    s1: int,
    next: int,
    bytes: Seq<u8>,
    start: int,
    i: int,
)
    requires
        table_extends(t1, t2),
        table_wf(t1),
        0 <= start <= i < bytes.len(),
        0 <= root < t1.len(),
        0 <= s1 < t1.len(),
        forall|v: Seq<char>| #[trigger] end_accepts(t1, s1, v) == end_accepts(
            t1,
            root,
            byte_chars(bytes.subrange(start, i)) + v,
        ),
        end_step(t2, s1, byte_char(bytes[i]), next),
    ensures
        forall|v: Seq<char>| #[trigger] end_accepts(t2, next, v) == end_accepts(
            t2,
            root,
            byte_chars(bytes.subrange(start, i + 1)) + v,
        ),
{
    lemma_end_extend(t1, t2, root);
    lemma_end_extend(t1, t2, s1);
    let w = byte_chars(bytes.subrange(start, i));
    let c = byte_char(bytes[i]);
    assert(byte_chars(bytes.subrange(start, i + 1)) =~= w.push(c));
    assert forall|v: Seq<char>| #[trigger] end_accepts(t2, next, v) == end_accepts(
        t2,
        root,
        byte_chars(bytes.subrange(start, i + 1)) + v,
    ) by {
        assert(w + cons(c, v) =~= w.push(c) + v);
        assert(end_accepts(t2, next, v) == end_accepts(t2, s1, cons(c, v)));
        assert(end_accepts(t1, s1, cons(c, v)) == end_accepts(t1, root, w + cons(c, v)));
    }
}

/// The transition cached for state `s` and byte `b`, if any.
spec fn cached(m: Map<RegexNodeId, Vec<RegexNodeId>>, s: RegexNodeId, b: int) -> Option<RegexNodeId> {
    if m.contains_key(s) && m[s]@[b] != UNCOMPUTED {
        Some(m[s]@[b])
    } else {
        None
    }
}

/// A row of cached transitions: each computed entry is a node of the table
/// and, while the table has room, for a plain state its derivative, and for
/// a state of a pattern that ends in `$` its step; past the start of the
/// input, a state that begins with `^` goes to `BOT`.
spec fn row_ok(t: NodeTable, s: RegexNodeId, row: Seq<RegexNodeId>) -> bool {
    &&& s < t.len()
    &&& row.len() == 256
    &&& forall|b: int|
        0 <= b < 256 ==> (#[trigger] row[b] == UNCOMPUTED || (row[b] < t.len() && (laws_apply(t, s as int)
            ==> is_derivative(t, s as int, byte_char(b as u8), row[b] as int)) && (end_form(t, s as int) && t.len()
            < NODE_LIMIT ==> end_step(t, s as int, byte_char(b as u8), row[b] as int))))
    &&& row_begin_ok(t, s, row)
}

/// Past the start of the input, a state that begins with `^` goes to `BOT`.
#[verifier::opaque]
spec fn row_begin_ok(t: NodeTable, s: RegexNodeId, row: Seq<RegexNodeId>) -> bool {
    begin_head(t, s as int) ==> forall|b: int| 0 <= b < 256 ==> #[trigger] row[b] == UNCOMPUTED || row[b] == node_id::BOT
}

/// What a state of a pattern ending in `$` is and accepts survives the
/// growth of the table.
proof fn lemma_end_extend(t1: NodeTable, t2: NodeTable, s: int)
    requires
        table_extends(t1, t2),
        table_wf(t1),
        0 <= s < t1.len(),
    ensures
        end_form(t2, s) == end_form(t1, s),
        forall|v: Seq<char>| #[trigger] end_accepts(t2, s, v) == end_accepts(t1, s, v),
{
    assert(t2[s] == t1[s]);
    if t1[s] is Concat {
        assert(node_ok(t1[s], s));
        lemma_extend_all(t1, t2, t1[s]->head as int);
    }
}

/// A step of a state of a pattern ending in `$` survives the growth of the
/// table.
proof fn lemma_end_step_extend(t1: NodeTable, t2: NodeTable, s: int, c: char, r: int)
    requires
        table_extends(t1, t2),
        table_wf(t1),
        0 <= s < t1.len(),
        0 <= r < t1.len(),
        end_step(t1, s, c, r),
    ensures
        end_step(t2, s, c, r),
{
    lemma_end_extend(t1, t2, s);
    lemma_end_extend(t1, t2, r);
    assert forall|v: Seq<char>| #[trigger] end_accepts(t2, r, v) == end_accepts(t2, s, cons(c, v)) by {
        assert(end_accepts(t1, r, v) == end_accepts(t1, s, cons(c, v)));
    }
}

/// Every cached row is correct.
#[verifier::opaque]
spec fn trans_ok(t: NodeTable, m: Map<RegexNodeId, Vec<RegexNodeId>>) -> bool {
    forall|s: RegexNodeId| #[trigger] m.contains_key(s) ==> row_ok(t, s, m[s]@)
}

/// Every cached nullability is the node's nullability in the middle.
spec fn nullable_ok(t: NodeTable, m: Map<RegexNodeId, u8>) -> bool {
    forall|s: RegexNodeId| #[trigger]
        m.contains_key(s) ==> s < t.len() && m[s] == (if nullable(t, LocationKind::Center, s as int) {
            NULLABLE
        } else {
            NOT_NULLABLE
        })
}

/// Index of byte `b` in the row of state `i`.
spec fn cell(i: int, b: int) -> int {
    i * 256 + b
}

proof fn lemma_cell(i: int, b: int, n: int)
    requires
        0 <= i < n,
        0 <= b < 256,
    ensures
        0 <= cell(i, b) < n * 256,
{
    assert(0 <= i * 256 + b < n * 256) by (nonlinear_arith)
        requires
            0 <= i < n,
            0 <= b < 256,
    ;
}

/// Every transition of state `s` is cached and leads to a known state.
spec fn explored(cache: Map<RegexNodeId, Vec<RegexNodeId>>, m: Map<RegexNodeId, u32>, s: RegexNodeId) -> bool {
    forall|b: int|
        0 <= b < 256 ==> #[trigger] cached(cache, s, b) is Some && m.contains_key(cached(cache, s, b)->0)
}

/// State `j` of `states` is the cached successor of an earlier state other
/// than `BOT`.
spec fn found_from(cache: Map<RegexNodeId, Vec<RegexNodeId>>, states: Seq<RegexNodeId>, j: int) -> bool {
    exists|i: int, b: int|
        0 <= i < j && 0 <= b < 256 && states[i] != node_id::BOT && #[trigger] cached(cache, states[i], b) == Some(
            states[j],
        )
}

/// `states` lists nodes found from `root` through the cached transitions:
/// the root first, `BOT` second, each later node the cached successor of an
/// earlier node other than `BOT`, and no node twice but a root that is `BOT`.
spec fn discovered(cache: Map<RegexNodeId, Vec<RegexNodeId>>, root: RegexNodeId, states: Seq<RegexNodeId>) -> bool {
    &&& states.len() >= 2
    &&& states[0] == root
    &&& states[1] == node_id::BOT
    &&& forall|i: int, j: int|
        0 <= i < j < states.len() && #[trigger] states[i] == #[trigger] states[j] ==> i == 0 && j == 1
    &&& forall|j: int| 2 <= j < states.len() ==> #[trigger] found_from(cache, states, j)
}

/// The table that precomputing builds: its states are found from the root
/// through the cached transitions, are at most `max_states` (or just the
/// root and `BOT`), and are closed under the cached transitions, which the
/// table holds; `BOT` goes to itself.
spec fn dfa_built(cache: Map<RegexNodeId, Vec<RegexNodeId>>, root: RegexNodeId, d: PrecomputedDfa, max_states: usize) -> bool {
    let n = d.states@.len();
    &&& discovered(cache, root, d.states@)
    &&& n <= max_states || n == 2
    &&& d.transitions@.len() == n * 256
    &&& forall|i: int, b: int|
        0 <= i < n && 0 <= b < 256 ==> (#[trigger] d.transitions@[cell(i, b)]) < n && (if d.states@[i] == node_id::BOT {
            d.states@[d.transitions@[cell(i, b)] as int] == node_id::BOT
        } else {
            cached(cache, d.states@[i], b) == Some(d.states@[d.transitions@[cell(i, b)] as int])
        })
}

/// After precomputing, a regex whose root is not `BOT` has built at least
/// one state.
proof fn lemma_precomputed_counts(re: Regex, done: bool)
    requires
        re.wf(),
        done ==> (re.precomputed_dfa matches Some(d) && dfa_built(re.transitions@, re.root, d, DEFAULT_PRECOMPUTE_LIMIT)),
        !done ==> exists|st: Seq<RegexNodeId>|
            #[trigger] discovered(re.transitions@, re.root, st) && st.len() > DEFAULT_PRECOMPUTE_LIMIT && st.len() > 2,
    ensures
        re.root != node_id::BOT ==> re.state_count() >= 1,
{
    let c = re.transitions@;
    if !done {
        let st = choose|st: Seq<RegexNodeId>|
            #[trigger] discovered(c, re.root, st) && st.len() > DEFAULT_PRECOMPUTE_LIMIT && st.len() > 2;
        assert(found_from(c, st, 2));
        let (i, b) = choose|i: int, b: int|
            0 <= i < 2 && 0 <= b < 256 && st[i] != node_id::BOT && #[trigger] cached(c, st[i], b) == Some(st[2]);
        lemma_cached_counts(c, st[i], b);
    } else if re.root != node_id::BOT {
        let d = re.precomputed_dfa.unwrap();
        lemma_cell(0, 0, d.states@.len() as int);
        assert(d.states@[0] == re.root);
        assert(cached(c, d.states@[0], 0) == Some(d.states@[d.transitions@[cell(0, 0)] as int]));
        lemma_cached_counts(c, re.root, 0);
    }
}

/// The most DFA states a search over `n` bytes builds: a match attempt
/// from each position, each reading at most the rest of the input.
pub open spec fn search_budget(n: int) -> int {
    (n + 2) * (n + 1)
}

/// Moving the search on from position `a` to a later `b` leaves room in
/// the budget for one more match attempt.
proof fn lemma_budget(a: int, b: int, n: int)
    requires
        0 <= a < b,
        b <= n + 1,
    ensures
        a * (n + 1) + n + 1 <= b * (n + 1),
        b * (n + 1) <= (n + 1) * (n + 1),
        n + b * (n + 1) <= search_budget(n),
        n + (n + 1) * (n + 1) <= search_budget(n),
{
    assert(a * (n + 1) + n + 1 <= b * (n + 1)) by (nonlinear_arith)
        requires
            0 <= a < b,
            b <= n + 1,
    ;
    assert(b * (n + 1) <= (n + 1) * (n + 1)) by (nonlinear_arith)
        requires
            0 <= b <= n + 1,
    ;
    assert((n + 1) * (n + 1) + (n + 1) == (n + 2) * (n + 1)) by (nonlinear_arith);
}

/// A set whose members are in `d0` or listed in `st` holds at most as many
/// as the two together.
proof fn lemma_dom_bound(d0: Set<RegexNodeId>, d: Set<RegexNodeId>, st: Seq<RegexNodeId>)
    requires
        d0.finite(),
        forall|s: RegexNodeId| #[trigger] d.contains(s) ==> d0.contains(s) || st.contains(s),
    ensures
        d.finite(),
        d.len() <= d0.len() + st.len(),
{
    broadcast use vstd::seq_lib::seq_to_set_is_finite;
    let u = d0.union(st.to_set());
    assert(d.subset_of(u));
    st.lemma_cardinality_of_set();
    vstd::set_lib::lemma_len_union(d0, st.to_set());
    vstd::set_lib::lemma_len_subset(d, u);
}

/// A state with a cached transition is one of the states of a finite cache,
/// which therefore holds at least one.
proof fn lemma_cached_counts(c: Map<RegexNodeId, Vec<RegexNodeId>>, s: RegexNodeId, b: int)
    requires
        c.dom().finite(),
        cached(c, s, b) is Some,
    ensures
        c.dom().len() >= 1,
{
    assert(c.dom().contains(s));
    assert(c.dom().remove(s).len() + 1 == c.dom().len());
}

/// Growing the cache, keeping what it held, keeps what was found.
proof fn lemma_discovered_grow(
    c1: Map<RegexNodeId, Vec<RegexNodeId>>,
    c2: Map<RegexNodeId, Vec<RegexNodeId>>,
    root: RegexNodeId,
    states: Seq<RegexNodeId>,
)
    requires
        discovered(c1, root, states),
        forall|s: RegexNodeId, b: int| 0 <= b < 256 && #[trigger] cached(c1, s, b) is Some ==> cached(c2, s, b) == cached(c1, s, b),
    ensures
        discovered(c2, root, states),
{
    assert forall|j: int| 2 <= j < states.len() implies #[trigger] found_from(c2, states, j) by {
        assert(found_from(c1, states, j));
        let (i, b) = choose|i: int, b: int|
            0 <= i < j && 0 <= b < 256 && states[i] != node_id::BOT && #[trigger] cached(c1, states[i], b) == Some(
                states[j],
            );
        assert(cached(c2, states[i], b) == Some(states[j]));
    }
}

/// A new node that is the cached successor of a listed node other than
/// `BOT` may be listed next.
proof fn lemma_discovered_push(
    c: Map<RegexNodeId, Vec<RegexNodeId>>,
    root: RegexNodeId,
    states: Seq<RegexNodeId>,
    p: int,
    b: int,
    next: RegexNodeId,
)
    requires
        discovered(c, root, states),
        0 <= p < states.len(),
        0 <= b < 256,
        states[p] != node_id::BOT,
        cached(c, states[p], b) == Some(next),
        forall|i: int| 0 <= i < states.len() ==> #[trigger] states[i] != next,
    ensures
        discovered(c, root, states.push(next)),
{
    let s2 = states.push(next);
    assert forall|j: int| 2 <= j < s2.len() implies #[trigger] found_from(c, s2, j) by {
        if j < states.len() {
            assert(found_from(c, states, j));
            let (i, bb) = choose|i: int, bb: int|
                0 <= i < j && 0 <= bb < 256 && states[i] != node_id::BOT && #[trigger] cached(c, states[i], bb) == Some(
                    states[j],
                );
            assert(s2[i] == states[i] && s2[j] == states[j]);
        } else {
            assert(s2[p] == states[p]);
            assert(s2[j] == next);
        }
    }
    assert forall|i: int, j: int| 0 <= i < j < s2.len() && #[trigger] s2[i] == #[trigger] s2[j] implies i == 0 && j == 1 by {
        if j == states.len() {
            assert(s2[i] == states[i]);
        } else {
            assert(s2[i] == states[i] && s2[j] == states[j]);
        }
    }
}

/// The precomputed table agrees with the derivatives: state 0 is the root,
/// state 1 is `BOT`, each entry is a state, and, while the table has room,
/// for a plain root each state is plain and each entry is its derivative,
/// and for a root ending in `$` each state is of that form and each entry
/// is its step.
spec fn dfa_ok(t: NodeTable, root: RegexNodeId, d: PrecomputedDfa) -> bool {
    let n = d.states@.len();
    &&& n >= 2
    &&& d.states@[0] == root
    &&& d.states@[1] == node_id::BOT
    &&& d.nullable@.len() == n
    &&& d.transitions@.len() == n * 256
    &&& forall|i: int| 0 <= i < n ==> (#[trigger] d.states@[i]) < t.len()
    &&& forall|i: int|
        0 <= i < n ==> #[trigger] d.nullable@[i] == nullable(t, LocationKind::Center, d.states@[i] as int)
    &&& d.nullable_end@.len() == n
    &&& forall|i: int|
        0 <= i < n ==> #[trigger] d.nullable_end@[i] == nullable(t, LocationKind::End, d.states@[i] as int)
    &&& forall|k: int| 0 <= k < n * 256 ==> (#[trigger] d.transitions@[k]) < n
    &&& laws_apply(t, root as int) ==> forall|i: int| 0 <= i < n ==> plain(t, #[trigger] d.states@[i] as int)
    &&& laws_apply(t, root as int) ==> forall|i: int, b: int|
        0 <= i < n && 0 <= b < 256 ==> is_derivative(
            t,
            d.states@[i] as int,
            byte_char(b as u8),
            d.states@[#[trigger] d.transitions@[cell(i, b)] as int] as int,
        )
    &&& dfa_end_ok(t, root, d)
    &&& dfa_begin_ok(t, root, d)
}

/// From a root that begins with `^`, every byte leads to `BOT`, and from
/// `BOT` every byte leads to `BOT`.
#[verifier::opaque]
spec fn dfa_begin_ok(t: NodeTable, root: RegexNodeId, d: PrecomputedDfa) -> bool {
    let n = d.states@.len();
    &&& begin_head(t, root as int) ==> forall|b: int|
        0 <= b < 256 ==> d.states@[#[trigger] d.transitions@[cell(0, b)] as int] == node_id::BOT
    &&& forall|i: int, b: int|
        0 <= i < n && 0 <= b < 256 && d.states@[i] == node_id::BOT ==> d.states@[#[trigger] d.transitions@[cell(
            i,
            b,
        )] as int] == node_id::BOT
}

/// For a root ending in `$`, while the table has room, each state of the
/// precomputed table is of that form and each entry is its step.
#[verifier::opaque]
spec fn dfa_end_ok(t: NodeTable, root: RegexNodeId, d: PrecomputedDfa) -> bool {
    let n = d.states@.len();
    &&& end_form(t, root as int) && t.len() < NODE_LIMIT ==> forall|i: int|
        0 <= i < n ==> end_form(t, #[trigger] d.states@[i] as int)
    &&& end_form(t, root as int) && t.len() < NODE_LIMIT ==> forall|i: int, b: int|
        0 <= i < n && 0 <= b < 256 ==> end_step(
            t,
            d.states@[i] as int,
            byte_char(b as u8),
            d.states@[#[trigger] d.transitions@[cell(i, b)] as int] as int,
        )
}

/// The state after the literal prefix is a node of the table and, while
/// the table has room, the node that is left of the root after the prefix:
/// for a plain root, in what it accepts; for a root ending in `$`, in what
/// it accepts up to the end of the input.
spec fn prefix_ok(t: NodeTable, root: RegexNodeId, accel: PrefixAccelerator, st: Option<RegexNodeId>) -> bool {
    match st {
        Some(s) => s < t.len() && (laws_apply(t, root as int) ==> plain(t, s as int) && forall|v: Seq<char>|
            #[trigger] accepts(t, s as int, v) == accepts(t, root as int, byte_chars(prefix_bytes(accel)) + v)) && (
        end_form(t, root as int) && t.len() < NODE_LIMIT ==> end_form(t, s as int) && forall|v: Seq<char>|
            #[trigger] end_accepts(t, s as int, v) == end_accepts(t, root as int, byte_chars(prefix_bytes(accel)) + v)),
        None => true,
    }
}

/// The literal prefix of an accelerator.
spec fn prefix_bytes(accel: PrefixAccelerator) -> Seq<u8> {
    match accel {
        PrefixAccelerator::SingleByte(b) => seq![b],
        PrefixAccelerator::Literal(v) => v@,
        _ => Seq::empty(),
    }
}

/// What the regex keeps true of the table `t` besides the builder's own
/// invariant.
spec fn regex_inv(r: Regex, t: NodeTable) -> bool {
    &&& r.root < t.len()
    &&& trans_ok(t, r.transitions@)
    &&& r.transitions@.dom().finite()
    &&& (r.state_count == r.transitions@.dom().len() || r.state_count == u64::MAX)
    &&& r.state_count <= r.transitions@.dom().len()
    &&& nullable_ok(t, r.nullable_cache@)
    &&& r.nullable_at_start == nullable(t, LocationKind::Begin, r.root as int)
    &&& r.startset == first_bytes(t, r.root as int)
    &&& accel_ok(t, r.root, r.prefix_accel, r.prefix_end_state)
    &&& (r.precomputed_dfa matches Some(d) ==> dfa_ok(t, r.root, d))
}

/// `BOT` is plain, and it is its own derivative by any character.
proof fn lemma_builtin_plain_bot(t: NodeTable)
    requires
        table_wf(t),
    ensures
        plain(t, 0),
        forall|c: char| #[trigger] is_derivative(t, 0, c, 0),
{
    crate::semantics::lemma_builtins_plain(t);
    assert forall|c: char| #[trigger] is_derivative(t, 0, c, 0) by {
        assert forall|v: Seq<char>| #[trigger] accepts(t, 0, v) == accepts(t, 0, cons(c, v)) by {
            lemma_eps_bot(t, v);
            lemma_eps_bot(t, cons(c, v));
        }
    }
}

/// A derivative that is still one after the table grows.
proof fn lemma_derivative_extend(t1: NodeTable, t2: NodeTable, id: int, c: char, r: int)
    requires
        table_extends(t1, t2),
        0 <= id < t1.len(),
        0 <= r < t1.len(),
        is_derivative(t1, id, c, r),
    ensures
        is_derivative(t2, id, c, r),
{
    lemma_extend_all(t1, t2, id);
    lemma_extend_all(t1, t2, r);
    assert forall|v: Seq<char>| #[trigger] accepts(t2, r, v) == accepts(t2, id, cons(c, v)) by {
        assert(accepts(t1, r, v) == accepts(t1, id, cons(c, v)));
    }
}

/// The regex's invariant survives the growth of the table.
proof fn lemma_regex_inv_extend(r: Regex, t1: NodeTable, t2: NodeTable)
    requires
        regex_inv(r, t1),
        table_extends(t1, t2),
        table_wf(t1),
    ensures
        regex_inv(r, t2),
{
    lemma_extend_all(t1, t2, r.root as int);
    reveal(trans_ok);
    assert forall|s: RegexNodeId| #[trigger] r.transitions@.contains_key(s) implies row_ok(t2, s, r.transitions@[s]@) by {
        let row = r.transitions@[s]@;
        assert(row_ok(t1, s, row));
        lemma_extend_all(t1, t2, s as int);
        lemma_end_extend(t1, t2, s as int);
        assert forall|b: int| 0 <= b < 256 implies (#[trigger] row[b] == UNCOMPUTED || (row[b] < t2.len() && (laws_apply(
            t2,
            s as int,
        ) ==> is_derivative(t2, s as int, byte_char(b as u8), row[b] as int)) && (end_form(t2, s as int) && t2.len()
            < NODE_LIMIT ==> end_step(t2, s as int, byte_char(b as u8), row[b] as int)))) by {
            if row[b] != UNCOMPUTED && laws_apply(t2, s as int) {
                lemma_derivative_extend(t1, t2, s as int, byte_char(b as u8), row[b] as int);
            }
            if row[b] != UNCOMPUTED && end_form(t2, s as int) && t2.len() < NODE_LIMIT {
                lemma_end_step_extend(t1, t2, s as int, byte_char(b as u8), row[b] as int);
            }
        }
        reveal(row_begin_ok);
        if begin_head(t2, s as int) {
            assert(t2[s as int] == t1[s as int]);
            assert(t2[t1[s as int]->head as int] == t1[t1[s as int]->head as int]);
            assert(begin_head(t1, s as int));
        }
    }
    assert forall|s: RegexNodeId| #[trigger] r.nullable_cache@.contains_key(s) implies s < t2.len()
        && r.nullable_cache@[s] == (if nullable(t2, LocationKind::Center, s as int) {
        NULLABLE
    } else {
        NOT_NULLABLE
    }) by {
        lemma_extend_nullable(t1, t2, LocationKind::Center, s as int);
    }
    lemma_extend_nullable(t1, t2, LocationKind::Begin, r.root as int);
    lemma_first_bytes_extend(t1, t2, r.root as int);
    lemma_accel_extend(t1, t2, r.root, r.prefix_accel, r.prefix_end_state);
    if let Some(d) = r.precomputed_dfa {
        let n = d.states@.len();
        assert forall|i: int| 0 <= i < n implies #[trigger] d.nullable@[i] == nullable(
            t2,
            LocationKind::Center,
            d.states@[i] as int,
        ) by {
            lemma_extend_nullable(t1, t2, LocationKind::Center, d.states@[i] as int);
        }
        assert forall|i: int| 0 <= i < n implies #[trigger] d.nullable_end@[i] == nullable(
            t2,
            LocationKind::End,
            d.states@[i] as int,
        ) by {
            lemma_extend_nullable(t1, t2, LocationKind::End, d.states@[i] as int);
        }
        if laws_apply(t2, r.root as int) {
            assert forall|i: int| 0 <= i < n implies plain(t2, #[trigger] d.states@[i] as int) by {
                lemma_extend_all(t1, t2, d.states@[i] as int);
            }
            assert forall|i: int, b: int| 0 <= i < n && 0 <= b < 256 implies is_derivative(
                t2,
                d.states@[i] as int,
                byte_char(b as u8),
                d.states@[#[trigger] d.transitions@[cell(i, b)] as int] as int,
            ) by {
                lemma_cell(i, b, n as int);
                lemma_derivative_extend(
                    t1,
                    t2,
                    d.states@[i] as int,
                    byte_char(b as u8),
                    d.states@[d.transitions@[cell(i, b)] as int] as int,
                );
            }
        }
        reveal(dfa_begin_ok);
        if begin_head(t2, r.root as int) {
            assert(t2[r.root as int] == t1[r.root as int]);
            assert(t2[t1[r.root as int]->head as int] == t1[t1[r.root as int]->head as int]);
            assert(begin_head(t1, r.root as int));
        }
        reveal(dfa_end_ok);
        if end_form(t2, r.root as int) && t2.len() < NODE_LIMIT {
            lemma_end_extend(t1, t2, r.root as int);
            assert forall|i: int| 0 <= i < n implies end_form(t2, #[trigger] d.states@[i] as int) by {
                lemma_end_extend(t1, t2, d.states@[i] as int);
            }
            assert forall|i: int, b: int| 0 <= i < n && 0 <= b < 256 implies end_step(
                t2,
                d.states@[i] as int,
                byte_char(b as u8),
                d.states@[#[trigger] d.transitions@[cell(i, b)] as int] as int,
            ) by {
                lemma_cell(i, b, n as int);
                lemma_end_step_extend(
                    t1,
                    t2,
                    d.states@[i] as int,
                    byte_char(b as u8),
                    d.states@[d.transitions@[cell(i, b)] as int] as int,
                );
            }
        }
    }
}

/// The width of the UTF-8 encoded character that starts with `first_byte`.
pub open spec fn spec_utf8_char_width(first_byte: u8) -> usize {
    if first_byte < 0x80 {
        1
    } else if first_byte < 0xE0 {
        2
    } else if first_byte < 0xF0 {
        3
    } else {
        4
    }
}

/// The width of the UTF-8 encoded character that starts with `first_byte`.
pub fn utf8_char_width(first_byte: u8) -> (r: usize)
    ensures
        r == spec_utf8_char_width(first_byte),
{
    if first_byte < 0x80 {
        1
    } else if first_byte < 0xE0 {
        2
    } else if first_byte < 0xF0 {
        3
    } else {
        4
    }
}

impl Regex {
    /// The nodes of the regex.
    pub closed spec fn table(&self) -> NodeTable {
        self.builder.table()
    }

    /// The root node of the pattern.
    pub closed spec fn root_id(&self) -> int {
        self.root as int
    }

    /// The regex's invariant.
    pub closed spec fn wf(&self) -> bool {
        self.builder.wf() && regex_inv(*self, self.builder.table())
    }

    /// The parts of the regex that matching does not change.
    pub closed spec fn same_config(&self, other: &Regex) -> bool {
        &&& self.root == other.root
        &&& self.startset == other.startset
        &&& self.nullable_at_start == other.nullable_at_start
        &&& self.state_limit == other.state_limit
        &&& self.prefix_accel == other.prefix_accel
        &&& self.prefix_end_state == other.prefix_end_state
        &&& self.precomputed_dfa == other.precomputed_dfa
    }

    /// Whether `state` is nullable at the end of the input (`is_end`) or in
    /// the middle, the latter through the cache.
    fn is_nullable_cached(&mut self, state: RegexNodeId, is_end: bool) -> (r: bool)
        requires
            old(self).wf(),
            state < old(self).table().len(),
        ensures
            old(self).state_count() == final(self).state_count(),
            final(self).wf(),
            final(self).same_config(old(self)),
            final(self).table() == old(self).table(),
            final(self).transitions == old(self).transitions,
            r == nullable(
                old(self).table(),
                if is_end {
                    LocationKind::End
                } else {
                    LocationKind::Center
                },
                state as int,
            ),
    {
        if is_end {
            return is_nullable(&self.builder, LocationKind::End, state);
        }
        match id_map_get(&self.nullable_cache, state) {
            Some(status) => status == NULLABLE,
            None => {
                let status = if is_nullable(&self.builder, LocationKind::Center, state) {
                    NULLABLE
                } else {
                    NOT_NULLABLE
                };
                id_map_insert(&mut self.nullable_cache, state, status);
                status == NULLABLE
            },
        }
    }

    /// The transition from `state` by `byte` in the middle of the input,
    /// from the cache or computed and cached.
    fn transition_fast(&mut self, state: RegexNodeId, byte: u8) -> (r: RegexNodeId)
        requires
            old(self).wf(),
            state < old(self).table().len(),
        ensures
            old(self).state_count() <= final(self).state_count(),
            final(self).state_count() <= old(self).state_count() + 1,
            final(self).transitions@.dom() == old(self).transitions@.dom().insert(state),
            final(self).wf(),
            final(self).same_config(old(self)),
            final(self).nullable_cache == old(self).nullable_cache,
            table_extends(old(self).table(), final(self).table()),
            r < final(self).table().len(),
            cached(final(self).transitions@, state, byte as int) == Some(r),
            forall|s: RegexNodeId, b: int|
                0 <= b < 256 && #[trigger] cached(old(self).transitions@, s, b) is Some ==> cached(
                    final(self).transitions@,
                    s,
                    b,
                ) == cached(old(self).transitions@, s, b),
            laws_apply(final(self).table(), state as int) ==> is_derivative(
                final(self).table(),
                state as int,
                byte_char(byte),
                r as int,
            ),
            end_form(final(self).table(), state as int) && final(self).table().len() < NODE_LIMIT ==> end_step(
                final(self).table(),
                state as int,
                byte_char(byte),
                r as int,
            ),
            begin_head(old(self).table(), state as int) ==> r == node_id::BOT,
    {
        let ghost m0 = self.transitions@;
        let ghost t0 = self.table();
        proof {
            reveal(trans_ok);
        }
        let (mut row, fresh) = match id_map_remove(&mut self.transitions, state) {
            Some(row) => (row, false),
            None => {
                let mut row: Vec<RegexNodeId> = Vec::new();
                let mut k: usize = 0;
                while k < 256
                    invariant
                        k <= 256,
                        row@.len() == k,
                        forall|j: int| 0 <= j < k ==> row@[j] == UNCOMPUTED,
                    decreases 256 - k,
                {
                    row.push(UNCOMPUTED);
                    k = k + 1;
                }
                (row, true)
            },
        };
        proof {
            if m0.contains_key(state) {
                assert(row_ok(t0, state, m0[state]@));
            }
            reveal(row_begin_ok);
            assert(row_ok(t0, state, row@));
        }
        let cached_next = row[byte as usize];
        proof {
            assert(fresh == !m0.contains_key(state));
            if fresh {
                assert(row@[byte as int] == UNCOMPUTED);
            }
        }
        if cached_next != UNCOMPUTED {
            id_map_insert(&mut self.transitions, state, row);
            proof {
                assert(self.transitions@ =~= m0.insert(state, row));
                if m0.contains_key(state) {
                    assert(self.transitions@ =~= m0);
                }
                assert forall|s: RegexNodeId, b: int|
                    0 <= b < 256 && #[trigger] cached(m0, s, b) is Some implies cached(self.transitions@, s, b) == cached(
                        m0,
                        s,
                        b,
                    ) by {}
            }
            proof {
                assert(row_ok(t0, state, row@));
                assert(row@[byte as int] == cached_next);
                reveal(row_begin_ok);
            }
            return cached_next;
        }
        let minterm = CharSet::ascii_singleton(byte);
        let next = derivative(&mut self.builder, LocationKind::Center, &minterm, state);
        let ghost t1 = self.table();
        let ghost row0 = row@;
        row.set(byte as usize, next);
        id_map_insert(&mut self.transitions, state, row);
        proof {
            let m1 = self.transitions@;
            assert(m1 =~= m0.remove(state).insert(state, row));
            if fresh {
                assert(m1.dom() =~= m0.dom().insert(state));
            } else {
                assert(m1.dom() =~= m0.dom());
            }
        }
        if fresh && self.state_count < u64::MAX {
            self.state_count = self.state_count + 1;
        }
        proof {
            lemma_regex_inv_extend(*old(self), t0, t1);
            let m1 = self.transitions@;
            assert(m1 =~= m0.remove(state).insert(state, row));
            assert forall|s: RegexNodeId| #[trigger] m1.contains_key(s) implies row_ok(t1, s, m1[s]@) by {
                if s == state {
                    lemma_end_extend(t0, t1, state as int);
                    assert forall|b: int| 0 <= b < 256 implies (#[trigger] row@[b] == UNCOMPUTED || (row@[b] < t1.len()
                        && (laws_apply(t1, s as int) ==> is_derivative(t1, s as int, byte_char(b as u8), row@[b] as int))
                        && (end_form(t1, s as int) && t1.len() < NODE_LIMIT ==> end_step(
                        t1,
                        s as int,
                        byte_char(b as u8),
                        row@[b] as int,
                    )))) by {
                        if b == byte as int {
                            assert(is_char_minterm(minterm@, byte_char(byte)));
                            lemma_extend_all(t0, t1, state as int);
                        } else if row@[b] != UNCOMPUTED && end_form(t1, s as int) && t1.len() < NODE_LIMIT {
                            assert(row_ok(t0, state, row0));
                            assert(row0[b] == row@[b]);
                            lemma_end_step_extend(t0, t1, s as int, byte_char(b as u8), row@[b] as int);
                        }
                    }
                    reveal(row_begin_ok);
                    if begin_head(t1, s as int) {
                        assert(t1[s as int] == t0[s as int]);
                        assert(t1[t0[s as int]->head as int] == t0[t0[s as int]->head as int]);
                        assert(begin_head(t0, s as int));
                        assert(row_ok(t0, state, row0));
                        assert(nullable(t0, LocationKind::Center, t0[s as int]->head as int) == false);
                        assert(next == node_id::BOT);
                        assert forall|b: int| 0 <= b < 256 implies #[trigger] row@[b] == UNCOMPUTED || row@[b] == node_id::BOT by {
                            if b != byte as int {
                                assert(row0[b] == row@[b]);
                            }
                        }
                    }
                } else {
                    assert(m1[s] == m0[s]);
                }
            }
            assert forall|s: RegexNodeId, b: int|
                0 <= b < 256 && #[trigger] cached(m0, s, b) is Some implies cached(m1, s, b) == cached(m0, s, b) by {
                if s == state {
                    assert(b != byte as int);
                }
            }
            if laws_apply(t1, state as int) {
                assert(is_char_minterm(minterm@, byte_char(byte)));
                lemma_extend_all(t0, t1, state as int);
            }
            lemma_end_extend(t0, t1, state as int);
            assert(is_char_minterm(minterm@, byte_char(byte)));
        }
        next
    }

    /// The transition from `state` by `byte` at location `loc`; only
    /// transitions in the middle are cached.
    fn transition(&mut self, state: RegexNodeId, byte: u8, loc: LocationKind) -> (r: RegexNodeId)
        requires
            old(self).wf(),
            state < old(self).table().len(),
        ensures
            old(self).state_count() <= final(self).state_count(),
            final(self).state_count() <= old(self).state_count() + 1,
            final(self).wf(),
            final(self).same_config(old(self)),
            final(self).nullable_cache == old(self).nullable_cache,
            table_extends(old(self).table(), final(self).table()),
            r < final(self).table().len(),
            end_form(final(self).table(), state as int) && final(self).table().len() < NODE_LIMIT ==> end_step(
                final(self).table(),
                state as int,
                byte_char(byte),
                r as int,
            ),
            (old(self).table()[state as int] is Begin || old(self).table()[state as int] is End) && loc
                != LocationKind::Center ==> r == node_id::BOT,
            forall|s: RegexNodeId, b: int|
                0 <= b < 256 && #[trigger] cached(old(self).transitions@, s, b) is Some ==> cached(
                    final(self).transitions@,
                    s,
                    b,
                ) == cached(old(self).transitions@, s, b),
            laws_apply(final(self).table(), state as int) ==> is_derivative(
                final(self).table(),
                state as int,
                byte_char(byte),
                r as int,
            ),
            loc == LocationKind::Begin && begin_form(old(self).table(), state as int) && final(self).table().len()
                < NODE_LIMIT ==> is_derivative(
                final(self).table(),
                old(self).table()[state as int]->tail as int,
                byte_char(byte),
                r as int,
            ),
    {
        if loc == LocationKind::Center {
            return self.transition_fast(state, byte);
        }
        let ghost t0 = self.table();
        let minterm = CharSet::ascii_singleton(byte);
        let next = derivative(&mut self.builder, loc, &minterm, state);
        proof {
            let t1 = self.table();
            lemma_regex_inv_extend(*old(self), t0, t1);
            if laws_apply(t1, state as int) {
                assert(is_char_minterm(minterm@, byte_char(byte)));
                lemma_extend_all(t0, t1, state as int);
            }
            lemma_end_extend(t0, t1, state as int);
            assert(is_char_minterm(minterm@, byte_char(byte)));
        }
        next
    }

    /// The end of the longest match that starts at `start`, reading from
    /// the root; in the middle of the input the precomputed table is used
    /// when there is one.
    #[verifier::rlimit(100)]
    #[verifier::spinoff_prover]
    fn match_from_bytes(&mut self, bytes: &[u8], start: usize) -> (r: Option<usize>)
        requires
            old(self).wf(),
            start <= bytes@.len(),
        ensures
            old(self).state_count() <= final(self).state_count(),
            final(self).state_count() <= old(self).state_count() + (bytes@.len() - start),
            final(self).wf(),
            final(self).same_config(old(self)),
            table_extends(old(self).table(), final(self).table()),
            laws_apply(final(self).table(), final(self).root_id()) ==> is_longest_from(
                final(self).table(),
                final(self).root_id(),
                bytes@,
                start as int,
                r,
            ),
            r matches Some(e) ==> start <= e <= bytes@.len(),
            begin_root_result(old(self).table(), old(self).root_id(), start as int, bytes@.len() as int, r),
            end_root_result(
                final(self).table(),
                final(self).root_id(),
                bytes@,
                start as int,
                r,
            ),
            begin_form_result(final(self).table(), final(self).root_id(), bytes@, start as int, r),
    {
        let n = bytes.len();
        if start > 0 && start < n && self.precomputed_dfa.is_some() {
            proof {
                reveal(begin_form_result);
                assert(self.table() == old(self).table());
            }
            proof {
                reveal(begin_root_result);
            }
            proof {
                reveal(end_root_result);
            }
            return self.match_from_bytes_precomputed(bytes, start);
        }
        let ghost t0 = self.table();
        let ghost root = self.root as int;
        let ghost p = t0[root]->tail as int;
        let mut state = self.root;
        let mut last_match: Option<usize> = None;
        let start_loc = if start == 0 && n == 0 {
            LocationKind::BeginEnd
        } else if start == 0 {
            LocationKind::Begin
        } else if start == n {
            LocationKind::End
        } else {
            LocationKind::Center
        };
        if is_nullable(&self.builder, start_loc, state) {
            last_match = Some(start);
        }
        proof {
            if begin_head(t0, root) && start > 0 {
                assert(nullable(t0, start_loc, t0[root]->head as int) == false);
            }
            if begin_form(t0, root) && start == 0 {
                lemma_plain_nullable(t0, start_loc, p);
                assert(nullable(t0, start_loc, t0[root]->head as int));
                assert(nullable(t0, start_loc, root) == nullable(t0, start_loc, p));
                assert(bytes@.subrange(0, 0).subrange(0, 0) =~= Seq::<u8>::empty());
                assert(byte_chars(Seq::<u8>::empty()) =~= Seq::<char>::empty());
                assert(is_longest_from(t0, p, bytes@.subrange(0, 0), 0, last_match));
            }
            if end_form(t0, root) {
                lemma_end_nullable(t0, start_loc, root);
                assert forall|v: Seq<char>| #[trigger] end_accepts(t0, root, v) == end_accepts(
                    t0,
                    root,
                    byte_chars(bytes@.subrange(start as int, start as int)) + v,
                ) by {
                    assert(byte_chars(bytes@.subrange(start as int, start as int)) + v =~= v);
                }
            }
            assert(byte_chars(bytes@.subrange(start as int, start as int)) =~= Seq::<char>::empty());
            if laws_apply(t0, root) {
                lemma_plain_nullable(t0, start_loc, root);
                assert forall|v: Seq<char>| #[trigger] accepts(t0, root, v) == accepts(
                    t0,
                    root,
                    byte_chars(bytes@.subrange(start as int, start as int)) + v,
                ) by {
                    assert(byte_chars(bytes@.subrange(start as int, start as int)) + v =~= v);
                }
            }
        }
        let mut i: usize = start;
        proof {
            assert(bytes@.subrange(0, n as int) =~= bytes@);
        }
        while i < n
            invariant_except_break
                start == 0 && n > 0 && old(self).table()[root] is Begin ==> i == 0 && state == root && last_match
                    == Some(0usize),
                end_form(self.table(), root) && self.table().len() < NODE_LIMIT ==> end_form(self.table(), state as int)
                    && (forall|v: Seq<char>| #[trigger] end_accepts(self.table(), state as int, v) == end_accepts(
                    self.table(),
                    root,
                    byte_chars(bytes@.subrange(start as int, i as int)) + v,
                )) && last_match == (if i == n && end_accepts(
                    self.table(),
                    root,
                    byte_chars(bytes@.subrange(start as int, n as int)),
                ) {
                    Some(n)
                } else {
                    None
                }),
                self.state_count() <= old(self).state_count() + (i - start),
                begin_form(self.table(), root) && self.table().len() < NODE_LIMIT && start == 0 ==> p
                    == self.table()[root]->tail && (i == 0 ==> state == root) && (i > 0 ==> plain(
                    self.table(),
                    state as int,
                ) && forall|v: Seq<char>| #[trigger] accepts(self.table(), state as int, v) == accepts(
                    self.table(),
                    p,
                    byte_chars(bytes@.subrange(0, i as int)) + v,
                )) && is_longest_from(self.table(), p, bytes@.subrange(0, i as int), 0, last_match),
                begin_head(self.table(), root) && start > 0 ==> last_match is None && i == start && state == root,
                laws_apply(self.table(), root) ==> plain(self.table(), state as int) && forall|v: Seq<char>|
                    #[trigger] accepts(self.table(), state as int, v) == accepts(
                        self.table(),
                        root,
                        byte_chars(bytes@.subrange(start as int, i as int)) + v,
                    ),
                laws_apply(self.table(), root) ==> is_longest_from(
                    self.table(),
                    root,
                    bytes@.subrange(0, i as int),
                    start as int,
                    last_match,
                ),
            invariant
                root < old(self).table().len(),
                self.wf(),
                self.same_config(old(self)),
                old(self).state_count() <= self.state_count(),
                self.state_count() <= old(self).state_count() + (i - start) + (if i < n {
                    1int
                } else {
                    0int
                }),
                table_extends(old(self).table(), self.table()),
                root == self.root,
                n == bytes@.len(),
                bytes@.subrange(0, n as int) == bytes@,
                start <= i <= n,
                last_match matches Some(e) ==> start <= e <= i,
                state < self.table().len(),
            ensures
                laws_apply(self.table(), root) ==> is_longest_from(self.table(), root, bytes@, start as int, last_match),
                begin_form(self.table(), root) && self.table().len() < NODE_LIMIT && start == 0 ==> is_longest_from(
                    self.table(),
                    p,
                    bytes@,
                    0,
                    last_match,
                ),
                begin_head(self.table(), root) && start > 0 ==> last_match is None,
                start == 0 && n > 0 && old(self).table()[root] is Begin ==> last_match == Some(0usize),
                end_form(self.table(), root) && self.table().len() < NODE_LIMIT ==> last_match == (if end_accepts(
                    self.table(),
                    root,
                    byte_chars(bytes@.subrange(start as int, n as int)),
                ) {
                    Some(n)
                } else {
                    None
                }),
            decreases n - i,
        {
            let b = bytes[i];
            let ghost t1 = self.table();
            let ghost s1 = state;
            let loc = if i == 0 {
                LocationKind::Begin
            } else {
                LocationKind::Center
            };
            proof {
                if start == 0 && n > 0 && old(self).table()[root] is Begin {
                    assert(self.table()[root] == old(self).table()[root]);
                }
            }
            let next = if loc == LocationKind::Center {
                self.transition_fast(state, b)
            } else {
                self.transition(state, b, loc)
            };
            let ghost t2 = self.table();
            proof {
                if begin_head(t2, root) && start > 0 {
                    assert(t2[root] == t1[root]);
                    assert(t2[t1[root]->head as int] == t1[t1[root]->head as int]);
                    assert(begin_head(t1, root));
                    assert(next == node_id::BOT);
                }
                if laws_apply(t2, root) {
                    lemma_extend_all(t1, t2, root);
                    lemma_extend_all(t1, t2, s1 as int);
                }
                lemma_step_residual(t1, t2, root, s1 as int, next as int, bytes@, start as int, i as int);
                if end_form(t2, root) && t2.len() < NODE_LIMIT {
                    lemma_end_extend(t1, t2, root);
                    lemma_end_extend(t1, t2, s1 as int);
                    lemma_end_residual(t1, t2, root, s1 as int, next as int, bytes@, start as int, i as int);
                }
                if begin_form(t2, root) && t2.len() < NODE_LIMIT && start == 0 {
                    lemma_extend_all(t1, t2, t2[root]->tail as int);
                    assert(begin_form(t1, root));
                    lemma_extend_all(t1, t2, p);
                    if i == 0 {
                        assert(is_derivative(t2, p, byte_char(b), next as int));
                        assert forall|v: Seq<char>| #[trigger] accepts(t2, next as int, v) == accepts(
                            t2,
                            p,
                            byte_chars(bytes@.subrange(0, 1)) + v,
                        ) by {
                            assert(byte_chars(bytes@.subrange(0, 1)) + v =~= cons(byte_char(b), v));
                        }
                    } else {
                        lemma_extend_all(t1, t2, s1 as int);
                        lemma_step_residual(t1, t2, p, s1 as int, next as int, bytes@, 0, i as int);
                    }
                }
            }
            state = next;
            if state == node_id::BOT {
                proof {
                    lemma_dead_end(t1, t2, root, bytes@, start as int, start as int, i as int, last_match);
                    if begin_form(t2, root) && t2.len() < NODE_LIMIT && start == 0 {
                        lemma_dead_end(t1, t2, p, bytes@, 0, 0, i as int, last_match);
                    }
                    if end_form(t2, root) && t2.len() < NODE_LIMIT {
                        let rest = byte_chars(bytes@.subrange(i + 1, n as int));
                        assert(byte_chars(bytes@.subrange(start as int, n as int)) =~= byte_chars(
                            bytes@.subrange(start as int, i + 1),
                        ) + rest);
                        assert(end_accepts(t2, 0, rest) == end_accepts(t2, root, byte_chars(bytes@.subrange(start as int, i + 1)) + rest));
                    }
                }
                break;
            }
            let is_end = i + 1 == n;
            let nullable_here = self.is_nullable_cached(state, is_end);
            proof {
                lemma_nullable_step(t1, t2, root, state as int, bytes@, start as int, start as int, i as int, last_match, is_end, nullable_here);
                if begin_form(t2, root) && t2.len() < NODE_LIMIT && start == 0 {
                    lemma_nullable_step(t1, t2, p, state as int, bytes@, 0, 0, i as int, last_match, is_end, nullable_here);
                }
                if end_form(t2, root) && t2.len() < NODE_LIMIT {
                    lemma_end_nullable(t2, if is_end { LocationKind::End } else { LocationKind::Center }, state as int);
                    assert(byte_chars(bytes@.subrange(start as int, i + 1)) + Seq::<char>::empty() =~= byte_chars(
                        bytes@.subrange(start as int, i + 1),
                    ));
                }
            }
            if nullable_here {
                last_match = Some(i + 1);
            }
            i = i + 1;
        }
        proof {
            if i == n && laws_apply(self.table(), root) {
                assert(bytes@.subrange(0, n as int) =~= bytes@);
            }
            reveal(begin_root_result);
            reveal(end_root_result);
            reveal(begin_form_result);
        }
        last_match
    }

    /// The longest match at `start`, where the literal prefix of
    /// `prefix_len` bytes has already been found: matching goes on from the
    /// state after the prefix. Without such a state it is
    /// `match_from_bytes`.
    #[verifier::rlimit(40)]
    fn match_from_bytes_with_prefix(&mut self, bytes: &[u8], start: usize, prefix_len: usize) -> (r: Option<
        usize,
    >)
        requires
            old(self).wf(),
            start + prefix_len <= bytes@.len(),
        ensures
            old(self).state_count() <= final(self).state_count(),
            final(self).state_count() <= old(self).state_count() + (bytes@.len() - start),
            final(self).wf(),
            final(self).same_config(old(self)),
            table_extends(old(self).table(), final(self).table()),
            laws_apply(final(self).table(), final(self).root_id()) && (old(self).prefix_end_state is Some ==> (
            prefix_len == prefix_bytes(old(self).prefix_accel).len() && bytes@.subrange(
                start as int,
                start + prefix_len,
            ) == prefix_bytes(old(self).prefix_accel))) ==> is_longest_beyond(
                final(self).table(),
                final(self).root_id(),
                bytes@,
                start as int,
                (if old(self).prefix_end_state is Some {
                    start + prefix_len
                } else {
                    start as int
                }),
                r,
            ),
            r matches Some(e) ==> start <= e <= bytes@.len(),
            end_form(final(self).table(), final(self).root_id()) && final(self).table().len() < NODE_LIMIT && old(
                self,
            ).prefix_end_state is Some && prefix_len == prefix_bytes(old(self).prefix_accel).len() && bytes@.subrange(
                start as int,
                start + prefix_len,
            ) == prefix_bytes(old(self).prefix_accel) ==> r == (if end_accepts(
                final(self).table(),
                final(self).root_id(),
                byte_chars(bytes@.subrange(start as int, bytes@.len() as int)),
            ) {
                Some(bytes@.len() as usize)
            } else {
                None
            }),
    {
        let n = bytes.len();
        let prefix_end = start + prefix_len;
        let state = match self.prefix_end_state {
            Some(s) => s,
            None => {
                return self.match_from_bytes(bytes, start);
            },
        };
        let ghost t0 = self.table();
        let ghost root = self.root as int;
        let ghost pre = prefix_bytes(self.prefix_accel);
        let ghost prefix_ok_cond = prefix_len == pre.len() && bytes@.subrange(start as int, prefix_end as int) == pre;
        let mut current_state = state;
        let mut last_match: Option<usize> = None;
        let nullable_here = self.is_nullable_cached(current_state, prefix_end == n);
        proof {
            assert(prefix_ok(t0, self.root, self.prefix_accel, self.prefix_end_state));
            if laws_apply(t0, root) && prefix_ok_cond {
                let loc = if prefix_end == n {
                    LocationKind::End
                } else {
                    LocationKind::Center
                };
                lemma_plain_nullable(t0, loc, state as int);
                let w = byte_chars(bytes@.subrange(start as int, prefix_end as int));
                assert(w + Seq::<char>::empty() =~= w);
                assert(accepts(t0, state as int, Seq::empty()) == accepts(t0, root, byte_chars(pre) + Seq::empty()));
                assert(bytes@.subrange(0, prefix_end as int).subrange(start as int, prefix_end as int)
                    =~= bytes@.subrange(start as int, prefix_end as int));
            }
            if end_form(t0, root) && t0.len() < NODE_LIMIT && prefix_ok_cond {
                let loc = if prefix_end == n {
                    LocationKind::End
                } else {
                    LocationKind::Center
                };
                lemma_end_nullable(t0, loc, state as int);
                let w = byte_chars(bytes@.subrange(start as int, prefix_end as int));
                assert(w + Seq::<char>::empty() =~= w);
                assert(end_accepts(t0, state as int, Seq::empty()) == end_accepts(t0, root, byte_chars(pre) + Seq::empty()));
                assert forall|v: Seq<char>| #[trigger] end_accepts(t0, state as int, v) == end_accepts(
                    t0,
                    root,
                    byte_chars(bytes@.subrange(start as int, prefix_end as int)) + v,
                ) by {
                    assert(end_accepts(t0, state as int, v) == end_accepts(t0, root, byte_chars(pre) + v));
                }
            }
        }
        if nullable_here {
            last_match = Some(prefix_end);
        }
        proof {
            assert(bytes@.subrange(0, n as int) =~= bytes@);
        }
        let mut i: usize = prefix_end;
        while i < n
            invariant_except_break
                self.state_count() <= old(self).state_count() + (i - prefix_end),
                laws_apply(self.table(), root) && prefix_ok_cond ==> plain(self.table(), current_state as int)
                    && forall|v: Seq<char>| #[trigger] accepts(self.table(), current_state as int, v) == accepts(
                    self.table(),
                    root,
                    byte_chars(bytes@.subrange(start as int, i as int)) + v,
                ),
                end_form(self.table(), root) && self.table().len() < NODE_LIMIT && prefix_ok_cond ==> end_form(
                    self.table(),
                    current_state as int,
                ) && (forall|v: Seq<char>| #[trigger] end_accepts(self.table(), current_state as int, v) == end_accepts(
                    self.table(),
                    root,
                    byte_chars(bytes@.subrange(start as int, i as int)) + v,
                )) && last_match == (if i == n && end_accepts(
                    self.table(),
                    root,
                    byte_chars(bytes@.subrange(start as int, n as int)),
                ) {
                    Some(n)
                } else {
                    None
                }),
                laws_apply(self.table(), root) && prefix_ok_cond ==> is_longest_beyond(
                    self.table(),
                    root,
                    bytes@.subrange(0, i as int),
                    start as int,
                    prefix_end as int,
                    last_match,
                ),
            invariant
                self.wf(),
                self.same_config(old(self)),
                old(self).state_count() <= self.state_count(),
                self.state_count() <= old(self).state_count() + (i - prefix_end) + (if i < n {
                    1int
                } else {
                    0int
                }),
                table_extends(old(self).table(), self.table()),
                root == self.root,
                n == bytes@.len(),
                bytes@.subrange(0, n as int) == bytes@,
                start <= prefix_end <= i <= n,
                last_match matches Some(e) ==> start <= e <= i,
                current_state < self.table().len(),
            ensures
                laws_apply(self.table(), root) && prefix_ok_cond ==> is_longest_beyond(
                    self.table(),
                    root,
                    bytes@,
                    start as int,
                    prefix_end as int,
                    last_match,
                ),
                end_form(self.table(), root) && self.table().len() < NODE_LIMIT && prefix_ok_cond ==> last_match == (if end_accepts(
                    self.table(),
                    root,
                    byte_chars(bytes@.subrange(start as int, n as int)),
                ) {
                    Some(n)
                } else {
                    None
                }),
            decreases n - i,
        {
            let b = bytes[i];
            let ghost t1 = self.table();
            let ghost s1 = current_state;
            let next = self.transition_fast(current_state, b);
            let ghost t2 = self.table();
            proof {
                if laws_apply(t2, root) && prefix_ok_cond {
                    lemma_extend_all(t1, t2, root);
                    lemma_extend_all(t1, t2, s1 as int);
                }
                if prefix_ok_cond {
                    lemma_step_residual(t1, t2, root, s1 as int, next as int, bytes@, start as int, i as int);
                }
                if end_form(t2, root) && t2.len() < NODE_LIMIT && prefix_ok_cond {
                    lemma_end_extend(t1, t2, root);
                    lemma_end_extend(t1, t2, s1 as int);
                    lemma_end_residual(t1, t2, root, s1 as int, next as int, bytes@, start as int, i as int);
                }
            }
            current_state = next;
            if current_state == node_id::BOT {
                proof {
                    if prefix_ok_cond {
                        lemma_dead_end(t1, t2, root, bytes@, start as int, prefix_end as int, i as int, last_match);
                    }
                    if end_form(t2, root) && t2.len() < NODE_LIMIT && prefix_ok_cond {
                        let rest = byte_chars(bytes@.subrange(i + 1, n as int));
                        assert(byte_chars(bytes@.subrange(start as int, n as int)) =~= byte_chars(
                            bytes@.subrange(start as int, i + 1),
                        ) + rest);
                        assert(end_accepts(t2, 0, rest) == end_accepts(t2, root, byte_chars(bytes@.subrange(start as int, i + 1)) + rest));
                    }
                }
                break;
            }
            let is_end = i + 1 == n;
            let nullable_here = self.is_nullable_cached(current_state, is_end);
            proof {
                if prefix_ok_cond {
                    lemma_nullable_step(
                        t1,
                        t2,
                        root,
                        current_state as int,
                        bytes@,
                        start as int,
                        prefix_end as int,
                        i as int,
                        last_match,
                        is_end,
                        nullable_here,
                    );
                }
                if end_form(t2, root) && t2.len() < NODE_LIMIT && prefix_ok_cond {
                    lemma_end_nullable(t2, if is_end { LocationKind::End } else { LocationKind::Center }, current_state as int);
                    assert(byte_chars(bytes@.subrange(start as int, i + 1)) + Seq::<char>::empty() =~= byte_chars(
                        bytes@.subrange(start as int, i + 1),
                    ));
                }
            }
            if nullable_here {
                last_match = Some(i + 1);
            }
            i = i + 1;
        }
        last_match
    }

    /// The parts of the regex that precomputing the table does not change.
    closed spec fn same_config_but_dfa(&self, other: &Regex) -> bool {
        &&& self.root == other.root
        &&& self.startset == other.startset
        &&& self.nullable_at_start == other.nullable_at_start
        &&& self.state_limit == other.state_limit
        &&& self.prefix_accel == other.prefix_accel
        &&& self.prefix_end_state == other.prefix_end_state
    }

    /// Explores the states reachable from the root, breadth first over all
    /// 256 bytes, and builds the flat table from them; gives up, keeping no
    /// table, once more than `max_states` states would be needed.
    fn precompute_dfa_internal(&mut self, max_states: usize) -> (r: bool)
        requires
            old(self).wf(),
            max_states <= 16777200,
        ensures
            old(self).state_count() <= final(self).state_count(),
            final(self).wf(),
            final(self).same_config_but_dfa(old(self)),
            table_extends(old(self).table(), final(self).table()),
            r ==> final(self).precomputed_dfa is Some,
            !r ==> final(self).precomputed_dfa == old(self).precomputed_dfa,
            r ==> (final(self).precomputed_dfa matches Some(d) && dfa_built(
                final(self).transitions@,
                final(self).root,
                d,
                max_states,
            ) && dfa_ok(final(self).table(), final(self).root, d)),
            !r ==> exists|states: Seq<RegexNodeId>|
                #[trigger] discovered(final(self).transitions@, final(self).root, states) && states.len() > max_states
                    && states.len() > 2,
            final(self).transitions@.dom().len() <= old(self).transitions@.dom().len() + (if max_states < 2 {
                2
            } else {
                max_states as int
            }),
    {
        let ghost t0 = self.table();
        let ghost root = self.root;
        let mut state_to_idx: FxHashMap<RegexNodeId, u32> = id_map_new();
        let mut idx_to_state: Vec<RegexNodeId> = Vec::new();
        let mut worklist: Vec<RegexNodeId> = Vec::new();
        id_map_insert(&mut state_to_idx, self.root, 0);
        idx_to_state.push(self.root);
        worklist.push(self.root);
        let bot_idx: u32 = 1;
        id_map_insert(&mut state_to_idx, node_id::BOT, bot_idx);
        idx_to_state.push(node_id::BOT);
        proof {
            lemma_builtin_plain_bot(t0);
            let m = state_to_idx@;
            let st = idx_to_state@;
            assert forall|s: RegexNodeId| #[trigger] m.contains_key(s) implies m[s] < st.len() && st[m[s] as int] == s by {}
            assert forall|i: int| 0 <= i < st.len() implies #[trigger] m.contains_key(st[i]) by {}
            assert forall|i: int| 0 <= i < st.len() implies st[i] == node_id::BOT || worklist@.contains(st[i])
                || explored(self.transitions@, m, #[trigger] st[i]) by {
                if i == 0 {
                    assert(worklist@[0] == st[0]);
                }
            }
            assert(discovered(self.transitions@, root, st));
        }
        loop
            invariant
                self.wf(),
                self.same_config(old(self)),
                old(self).state_count() <= self.state_count(),
                forall|s: RegexNodeId| #[trigger] self.transitions@.dom().contains(s) ==> old(self).transitions@.dom().contains(s) || idx_to_state@.contains(s),
                old(self).transitions@.dom().finite(),
                table_extends(t0, self.table()),
                t0 == old(self).table(),
                root == self.root,
                root < t0.len(),
                max_states <= 16777200,
                bot_idx == 1,
                2 <= idx_to_state@.len() <= max_states + 2,
                idx_to_state@[0] == root,
                idx_to_state@[1] == node_id::BOT,
                forall|i: int| 0 <= i < idx_to_state@.len() ==> (#[trigger] idx_to_state@[i]) < self.table().len(),
                forall|s: RegexNodeId| #[trigger]
                    state_to_idx@.contains_key(s) ==> state_to_idx@[s] < idx_to_state@.len()
                        && idx_to_state@[state_to_idx@[s] as int] == s,
                forall|i: int| 0 <= i < idx_to_state@.len() ==> #[trigger] state_to_idx@.contains_key(idx_to_state@[i]),
                forall|k: int| 0 <= k < worklist@.len() ==> (#[trigger] worklist@[k]) < self.table().len(),
                forall|i: int|
                    0 <= i < idx_to_state@.len() ==> idx_to_state@[i] == node_id::BOT || worklist@.contains(
                        idx_to_state@[i],
                    ) || explored(self.transitions@, state_to_idx@, #[trigger] idx_to_state@[i]),
                laws_apply(self.table(), root as int) ==> forall|i: int|
                    0 <= i < idx_to_state@.len() ==> plain(self.table(), #[trigger] idx_to_state@[i] as int),
                laws_apply(self.table(), root as int) ==> forall|k: int|
                    0 <= k < worklist@.len() ==> plain(self.table(), #[trigger] worklist@[k] as int),
                end_form(self.table(), root as int) && self.table().len() < NODE_LIMIT ==> forall|i: int|
                    0 <= i < idx_to_state@.len() ==> end_form(self.table(), #[trigger] idx_to_state@[i] as int),
                end_form(self.table(), root as int) && self.table().len() < NODE_LIMIT ==> forall|k: int|
                    0 <= k < worklist@.len() ==> end_form(self.table(), #[trigger] worklist@[k] as int),
                discovered(self.transitions@, root, idx_to_state@),
                idx_to_state@.len() <= max_states || idx_to_state@.len() == 2,
                forall|k: int| 0 <= k < worklist@.len() ==> state_to_idx@.contains_key(#[trigger] worklist@[k]),
            ensures
                worklist@.len() == 0,
            decreases 257 * (max_states + 2 - idx_to_state@.len()) + worklist@.len(),
        {
            let ghost w_before = worklist@;
            let state = match worklist.pop() {
                Some(s) => s,
                None => {
                    break;
                },
            };
            proof {
                assert(w_before.last() == state);
                assert(state < self.table().len());
                if end_form(self.table(), root as int) && self.table().len() < NODE_LIMIT {
                    assert(end_form(self.table(), w_before[w_before.len() - 1] as int));
                    assert forall|k: int| 0 <= k < worklist@.len() implies end_form(self.table(), #[trigger] worklist@[k] as int) by {
                        assert(worklist@[k] == w_before[k]);
                    }
                }
                assert(state_to_idx@.contains_key(w_before[w_before.len() - 1]));
                assert forall|k: int| 0 <= k < worklist@.len() implies state_to_idx@.contains_key(#[trigger] worklist@[k]) by {
                    assert(worklist@[k] == w_before[k]);
                }
            }
            if state == node_id::BOT {
                proof {
                    assert forall|i: int|
                        0 <= i < idx_to_state@.len() implies idx_to_state@[i] == node_id::BOT || worklist@.contains(
                        idx_to_state@[i],
                    ) || explored(self.transitions@, state_to_idx@, #[trigger] idx_to_state@[i]) by {
                        if w_before.contains(idx_to_state@[i]) && idx_to_state@[i] != node_id::BOT {
                            let k = choose|k: int| 0 <= k < w_before.len() && w_before[k] == idx_to_state@[i];
                            assert(worklist@[k] == w_before[k]);
                        }
                    }
                }
                continue;
            }
            let ghost s0 = idx_to_state@.len();
            let ghost w0 = worklist@;
            let mut bi: u32 = 0;
            while bi < 256
                invariant
                    self.wf(),
                    self.same_config(old(self)),
                    old(self).state_count() <= self.state_count(),
                    forall|s: RegexNodeId| #[trigger] self.transitions@.dom().contains(s) ==> old(self).transitions@.dom().contains(s) || idx_to_state@.contains(s),
                    old(self).transitions@.dom().finite(),
                    table_extends(t0, self.table()),
                    t0 == old(self).table(),
                    root == self.root,
                    root < t0.len(),
                    max_states <= 16777200,
                    bot_idx == 1,
                    bi <= 256,
                    state < self.table().len(),
                    state != node_id::BOT,
                    w0 == w_before.drop_last(),
                    w_before.last() == state,
                    s0 <= idx_to_state@.len() <= max_states + 2,
                    2 <= s0,
                    worklist@.len() - w0.len() == idx_to_state@.len() - s0,
                    worklist@.subrange(0, w0.len() as int) == w0,
                    forall|k: int| w0.len() <= k < worklist@.len() ==> (#[trigger] worklist@[k]) == idx_to_state@[s0 + (k - w0.len())],
                    idx_to_state@[0] == root,
                    idx_to_state@[1] == node_id::BOT,
                    forall|i: int| 0 <= i < idx_to_state@.len() ==> (#[trigger] idx_to_state@[i]) < self.table().len(),
                    forall|s: RegexNodeId| #[trigger]
                        state_to_idx@.contains_key(s) ==> state_to_idx@[s] < idx_to_state@.len()
                            && idx_to_state@[state_to_idx@[s] as int] == s,
                    forall|i: int| 0 <= i < idx_to_state@.len() ==> #[trigger] state_to_idx@.contains_key(idx_to_state@[i]),
                    forall|k: int| 0 <= k < worklist@.len() ==> (#[trigger] worklist@[k]) < self.table().len(),
                    forall|b: int|
                        0 <= b < bi ==> #[trigger] cached(self.transitions@, state, b) is Some && state_to_idx@.contains_key(
                            cached(self.transitions@, state, b)->0,
                        ),
                    forall|i: int|
                        0 <= i < s0 ==> idx_to_state@[i] == node_id::BOT || w_before.contains(idx_to_state@[i]) || explored(
                            self.transitions@,
                            state_to_idx@,
                            #[trigger] idx_to_state@[i],
                        ),
                    laws_apply(self.table(), root as int) ==> plain(self.table(), state as int),
                    laws_apply(self.table(), root as int) ==> forall|i: int|
                        0 <= i < idx_to_state@.len() ==> plain(self.table(), #[trigger] idx_to_state@[i] as int),
                    laws_apply(self.table(), root as int) ==> forall|k: int|
                        0 <= k < worklist@.len() ==> plain(self.table(), #[trigger] worklist@[k] as int),
                    end_form(self.table(), root as int) && self.table().len() < NODE_LIMIT ==> end_form(self.table(), state as int),
                    end_form(self.table(), root as int) && self.table().len() < NODE_LIMIT ==> forall|i: int|
                        0 <= i < idx_to_state@.len() ==> end_form(self.table(), #[trigger] idx_to_state@[i] as int),
                    end_form(self.table(), root as int) && self.table().len() < NODE_LIMIT ==> forall|k: int|
                        0 <= k < worklist@.len() ==> end_form(self.table(), #[trigger] worklist@[k] as int),
                    discovered(self.transitions@, root, idx_to_state@),
                    idx_to_state@.len() <= max_states || idx_to_state@.len() == 2,
                    forall|k: int| 0 <= k < worklist@.len() ==> state_to_idx@.contains_key(#[trigger] worklist@[k]),
                    state_to_idx@.contains_key(state),
                decreases 256 - bi,
            {
                let byte = bi as u8;
                let ghost t1 = self.table();
                let ghost c1 = self.transitions@;
                let ghost m1 = state_to_idx@;
                let next = self.transition_fast(state, byte);
                let ghost t2 = self.table();
                proof {
                    assert(idx_to_state@[state_to_idx@[state] as int] == state);
                    assert(idx_to_state@.contains(state));
                    if laws_apply(t2, root as int) {
                        lemma_extend_all(t1, t2, root as int);
                        lemma_extend_all(t1, t2, state as int);
                        assert forall|i: int| 0 <= i < idx_to_state@.len() implies plain(t2, #[trigger] idx_to_state@[i] as int) by {
                            lemma_extend_all(t1, t2, idx_to_state@[i] as int);
                        }
                        assert forall|k: int| 0 <= k < worklist@.len() implies plain(t2, #[trigger] worklist@[k] as int) by {
                            lemma_extend_all(t1, t2, worklist@[k] as int);
                        }
                    }
                    if end_form(t2, root as int) && t2.len() < NODE_LIMIT {
                        lemma_end_extend(t1, t2, root as int);
                        lemma_end_extend(t1, t2, state as int);
                        assert forall|i: int| 0 <= i < idx_to_state@.len() implies end_form(t2, #[trigger] idx_to_state@[i] as int) by {
                            lemma_end_extend(t1, t2, idx_to_state@[i] as int);
                        }
                        assert forall|k: int| 0 <= k < worklist@.len() implies end_form(t2, #[trigger] worklist@[k] as int) by {
                            lemma_end_extend(t1, t2, worklist@[k] as int);
                        }
                        assert(end_form(t2, next as int));
                    }
                }
                proof {
                    lemma_discovered_grow(c1, self.transitions@, root, idx_to_state@);
                }
                match id_map_get(&state_to_idx, next) {
                    Some(_) => {},
                    None => {
                        proof {
                            let p = state_to_idx@[state] as int;
                            assert(idx_to_state@[p] == state);
                            assert forall|i: int| 0 <= i < idx_to_state@.len() implies #[trigger] idx_to_state@[i] != next by {
                                assert(state_to_idx@.contains_key(idx_to_state@[i]));
                            }
                            lemma_discovered_push(self.transitions@, root, idx_to_state@, p, bi as int, next);
                        }
                        if idx_to_state.len() >= max_states {
                            proof {
                                assert(discovered(self.transitions@, self.root, idx_to_state@.push(next)));
                                lemma_dom_bound(old(self).transitions@.dom(), self.transitions@.dom(), idx_to_state@);
                            }
                            return false;
                        }
                        let ghost ws = worklist@;
                        let ghost is0 = idx_to_state@;
                        let new_idx = idx_to_state.len() as u32;
                        id_map_insert(&mut state_to_idx, next, new_idx);
                        idx_to_state.push(next);
                        worklist.push(next);
                        proof {
                            assert forall|x: RegexNodeId| #[trigger] self.transitions@.dom().contains(x) implies old(
                                self,
                            ).transitions@.dom().contains(x) || idx_to_state@.contains(x) by {
                                if is0.contains(x) {
                                    let k = choose|k: int| 0 <= k < is0.len() && is0[k] == x;
                                    assert(idx_to_state@[k] == x);
                                }
                            }
                            assert forall|k: int| 0 <= k < worklist@.len() implies state_to_idx@.contains_key(#[trigger] worklist@[k]) by {
                                if k < ws.len() {
                                    assert(worklist@[k] == ws[k]);
                                }
                            }
                        }
                    },
                }
                proof {
                    assert forall|b: int|
                        0 <= b < bi + 1 implies #[trigger] cached(self.transitions@, state, b) is Some && state_to_idx@.contains_key(
                        cached(self.transitions@, state, b)->0,
                    ) by {
                        if b < bi {
                            assert(cached(c1, state, b) is Some);
                        }
                    }
                    assert forall|i: int|
                        0 <= i < s0 implies idx_to_state@[i] == node_id::BOT || w_before.contains(idx_to_state@[i]) || explored(
                        self.transitions@,
                        state_to_idx@,
                        #[trigger] idx_to_state@[i],
                    ) by {
                        if explored(c1, m1, idx_to_state@[i]) {
                            assert forall|b: int| 0 <= b < 256 implies #[trigger] cached(self.transitions@, idx_to_state@[i], b) is Some
                                && state_to_idx@.contains_key(cached(self.transitions@, idx_to_state@[i], b)->0) by {
                                assert(cached(c1, idx_to_state@[i], b) is Some);
                            }
                        }
                    }
                    assert(worklist@.subrange(0, w0.len() as int) =~= w0);
                }
                bi = bi + 1;
            }
            proof {
                assert forall|i: int|
                    0 <= i < idx_to_state@.len() implies idx_to_state@[i] == node_id::BOT || worklist@.contains(
                    idx_to_state@[i],
                ) || explored(self.transitions@, state_to_idx@, #[trigger] idx_to_state@[i]) by {
                    if i >= s0 {
                        let k = w0.len() + (i - s0);
                        assert(worklist@[k] == idx_to_state@[i]);
                    } else if idx_to_state@[i] == state {
                        assert(explored(self.transitions@, state_to_idx@, state));
                    } else if idx_to_state@[i] != node_id::BOT && w_before.contains(idx_to_state@[i]) && !explored(
                        self.transitions@,
                        state_to_idx@,
                        idx_to_state@[i],
                    ) {
                        let k = choose|k: int| 0 <= k < w_before.len() && w_before[k] == idx_to_state@[i];
                        assert(k < w0.len());
                        assert(worklist@.subrange(0, w0.len() as int)[k] == w0[k]);
                        assert(worklist@[k] == idx_to_state@[i]);
                    }
                }
            }
        }
        proof {
            assert forall|i: int| 0 <= i < idx_to_state@.len() implies idx_to_state@[i] == node_id::BOT || explored(
                self.transitions@,
                state_to_idx@,
                #[trigger] idx_to_state@[i],
            ) by {
                assert(!worklist@.contains(idx_to_state@[i]));
            }
        }
        let num_states = idx_to_state.len();
        proof {
            assert(discovered(self.transitions@, root, idx_to_state@));
            assert(num_states <= max_states || num_states == 2);
        }
        let ghost states = idx_to_state@;
        let ghost m = state_to_idx@;
        let mut transitions: Vec<u32> = Vec::new();
        let total = num_states * 256;
        while transitions.len() < total
            invariant
                total == num_states * 256,
                transitions@.len() <= total,
                forall|k: int| 0 <= k < transitions@.len() ==> #[trigger] transitions@[k] == bot_idx,
            decreases total - transitions@.len(),
        {
            transitions.push(bot_idx);
        }
        let ghost tb = self.table();
        let ghost cb = self.transitions@;
        let mut state_idx: usize = 0;
        proof {
            assert(laws_apply(tb, root as int) ==> forall|i: int| 0 <= i < states.len() ==> plain(tb, #[trigger] states[i] as int));
            assert(end_form(tb, root as int) && tb.len() < NODE_LIMIT ==> forall|i: int|
                0 <= i < states.len() ==> end_form(tb, #[trigger] states[i] as int));
        }
        while state_idx < num_states
            invariant
                self.wf(),
                self.same_config(old(self)),
                old(self).state_count() <= self.state_count(),
                forall|s: RegexNodeId| #[trigger] self.transitions@.dom().contains(s) ==> old(self).transitions@.dom().contains(s) || idx_to_state@.contains(s),
                old(self).transitions@.dom().finite(),
                table_extends(tb, self.table()),
                table_extends(t0, tb),
                t0 == old(self).table(),
                root == self.root,
                root < t0.len(),
                bot_idx == 1,
                num_states == states.len(),
                2 <= num_states <= max_states + 2,
                max_states <= 16777200,
                states == idx_to_state@,
                m == state_to_idx@,
                total == num_states * 256,
                transitions@.len() == total,
                state_idx <= num_states,
                states[0] == root,
                states[1] == node_id::BOT,
                forall|i: int| 0 <= i < states.len() ==> (#[trigger] states[i]) < tb.len(),
                forall|s: RegexNodeId| #[trigger]
                    m.contains_key(s) ==> m[s] < states.len() && states[m[s] as int] == s,
                forall|i: int| 0 <= i < states.len() ==> states[i] == node_id::BOT || explored(cb, m, #[trigger] states[i]),
                forall|s: RegexNodeId, b: int|
                    0 <= b < 256 && #[trigger] cached(cb, s, b) is Some ==> cached(self.transitions@, s, b) == cached(cb, s, b),
                forall|i: int, b: int|
                    0 <= i < state_idx && 0 <= b < 256 ==> #[trigger] transitions@[cell(i, b)] == (if states[i] == node_id::BOT {
                        1
                    } else {
                        m[cached(cb, states[i], b)->0]
                    }),
                forall|k: int| state_idx * 256 <= k < total ==> #[trigger] transitions@[k] == 1,
                forall|k: int| 0 <= k < total ==> #[trigger] transitions@[k] < num_states,
                laws_apply(tb, root as int) ==> forall|i: int| 0 <= i < states.len() ==> plain(tb, #[trigger] states[i] as int),
                end_form(tb, root as int) && tb.len() < NODE_LIMIT ==> forall|i: int|
                    0 <= i < states.len() ==> end_form(tb, #[trigger] states[i] as int),
            decreases num_states - state_idx,
        {
            let state = idx_to_state[state_idx];
            proof {
                assert(state_idx * 256 + 256 <= total) by (nonlinear_arith)
                    requires
                        state_idx < num_states,
                        total == num_states * 256,
                ;
            }
            if state != node_id::BOT {
                let base = state_idx * 256;
                let mut bi: u32 = 0;
                while bi < 256
                    invariant
                        self.wf(),
                        self.same_config(old(self)),
                        old(self).state_count() <= self.state_count(),
                        forall|s: RegexNodeId| #[trigger] self.transitions@.dom().contains(s) ==> old(self).transitions@.dom().contains(s) || idx_to_state@.contains(s),
                        old(self).transitions@.dom().finite(),
                        table_extends(tb, self.table()),
                        table_extends(t0, tb),
                        t0 == old(self).table(),
                        root == self.root,
                        root < t0.len(),
                        bot_idx == 1,
                        num_states == states.len(),
                        2 <= num_states <= max_states + 2,
                        max_states <= 16777200,
                        states == idx_to_state@,
                        m == state_to_idx@,
                        total == num_states * 256,
                        transitions@.len() == total,
                        state_idx < num_states,
                        state == states[state_idx as int],
                        state != node_id::BOT,
                        base == state_idx * 256,
                        base + 256 <= total,
                        bi <= 256,
                        forall|i: int| 0 <= i < states.len() ==> (#[trigger] states[i]) < tb.len(),
                        forall|s: RegexNodeId| #[trigger]
                            m.contains_key(s) ==> m[s] < states.len() && states[m[s] as int] == s,
                        forall|i: int| 0 <= i < states.len() ==> states[i] == node_id::BOT || explored(cb, m, #[trigger] states[i]),
                        forall|s: RegexNodeId, b: int|
                            0 <= b < 256 && #[trigger] cached(cb, s, b) is Some ==> cached(self.transitions@, s, b) == cached(
                                cb,
                                s,
                                b,
                            ),
                        forall|i: int, b: int|
                            0 <= i < state_idx && 0 <= b < 256 ==> #[trigger] transitions@[cell(i, b)] == (if states[i]
                                == node_id::BOT {
                                1
                            } else {
                                m[cached(cb, states[i], b)->0]
                            }),
                        forall|b: int| 0 <= b < bi ==> #[trigger] transitions@[cell(state_idx as int, b)] == m[cached(cb, state, b)->0],
                        forall|k: int| base + bi <= k < total ==> #[trigger] transitions@[k] == 1,
                        forall|k: int| 0 <= k < total ==> #[trigger] transitions@[k] < num_states,
                    decreases 256 - bi,
                {
                    let byte = bi as u8;
                    proof {
                        assert(explored(cb, m, state));
                        assert(cached(cb, state, bi as int) is Some);
                        assert(tb.len() <= self.table().len());
                    }
                    let next = self.transition_fast(state, byte);
                    let next_idx = id_map_get(&state_to_idx, next).unwrap();
                    let ghost before = transitions@;
                    transitions.set(base + bi as usize, next_idx);
                    proof {
                        assert(cell(state_idx as int, bi as int) == base + bi);
                        assert forall|i: int, b: int|
                            0 <= i < state_idx && 0 <= b < 256 implies #[trigger] transitions@[cell(i, b)] == (if states[i]
                            == node_id::BOT {
                            1
                        } else {
                            m[cached(cb, states[i], b)->0]
                        }) by {
                            lemma_cell(i, b, state_idx as int);
                            assert(cell(i, b) < state_idx * 256) by (nonlinear_arith)
                                requires
                                    0 <= i < state_idx,
                                    0 <= b < 256,
                                    cell(i, b) == i * 256 + b,
                            ;
                            assert(transitions@[cell(i, b)] == before[cell(i, b)]);
                        }
                    }
                    bi = bi + 1;
                }
            }
            proof {
                assert forall|i: int, b: int|
                    0 <= i < state_idx + 1 && 0 <= b < 256 implies #[trigger] transitions@[cell(i, b)] == (if states[i]
                    == node_id::BOT {
                    1
                } else {
                    m[cached(cb, states[i], b)->0]
                }) by {
                    if i == state_idx && states[i] == node_id::BOT {
                        assert(state_idx * 256 <= cell(i, b) < total);
                    }
                }
                assert forall|k: int| (state_idx + 1) * 256 <= k < total implies #[trigger] transitions@[k] == 1 by {
                    assert((state_idx + 1) * 256 == state_idx * 256 + 256) by (nonlinear_arith);
                }
            }
            state_idx = state_idx + 1;
        }
        let ghost tn = self.table();
        let ghost cf = self.transitions@;
        let mut nullable: Vec<bool> = Vec::new();
        let mut nullable_end: Vec<bool> = Vec::new();
        let mut k: usize = 0;
        while k < num_states
            invariant
                self.wf(),
                self.same_config(old(self)),
                old(self).state_count() <= self.state_count(),
                self.table() == tn,
                self.transitions@ == cf,
                k <= num_states,
                num_states == states.len(),
                states == idx_to_state@,
                forall|i: int| 0 <= i < states.len() ==> (#[trigger] states[i]) < tn.len(),
                nullable@.len() == k,
                forall|i: int| 0 <= i < k ==> #[trigger] nullable@[i] == crate::semantics::nullable(
                    tn,
                    LocationKind::Center,
                    states[i] as int,
                ),
                nullable_end@.len() == k,
                forall|i: int| 0 <= i < k ==> #[trigger] nullable_end@[i] == crate::semantics::nullable(
                    tn,
                    LocationKind::End,
                    states[i] as int,
                ),
            decreases num_states - k,
        {
            let nb = self.is_nullable_cached(idx_to_state[k], false);
            nullable.push(nb);
            let ne = self.is_nullable_cached(idx_to_state[k], true);
            nullable_end.push(ne);
            k = k + 1;
        }
        let d = PrecomputedDfa { transitions, nullable, nullable_end, states: Ghost(states) };
        proof {
            lemma_builtin_plain_bot(tn);
            assert(regex_inv(*self, tn));
            reveal(trans_ok);
            assert(trans_ok(tn, cf));
            if laws_apply(tn, root as int) {
                lemma_extend_all(tb, tn, root as int);
                assert forall|i: int| 0 <= i < states.len() implies plain(tn, #[trigger] states[i] as int) by {
                    lemma_extend_all(tb, tn, states[i] as int);
                }
                assert forall|i: int, b: int| 0 <= i < states.len() && 0 <= b < 256 implies is_derivative(
                    tn,
                    states[i] as int,
                    byte_char(b as u8),
                    states[#[trigger] d.transitions@[cell(i, b)] as int] as int,
                ) by {
                    if states[i] != node_id::BOT {
                        assert(explored(cb, m, states[i]));
                        assert(cached(cb, states[i], b) is Some);
                        let v = cached(cb, states[i], b)->0;
                        assert(cached(cf, states[i], b) == Some(v));
                        assert(row_ok(tn, states[i], cf[states[i]]@));
                        assert(cf[states[i]]@[b] == v);
                        assert(plain(tn, states[i] as int));
                    }
                }
            }
            reveal(dfa_end_ok);
            if end_form(tn, root as int) && tn.len() < NODE_LIMIT {
                lemma_end_extend(tb, tn, root as int);
                assert forall|i: int| 0 <= i < states.len() implies end_form(tn, #[trigger] states[i] as int) by {
                    lemma_end_extend(tb, tn, states[i] as int);
                }
                assert forall|i: int, b: int| 0 <= i < states.len() && 0 <= b < 256 implies end_step(
                    tn,
                    states[i] as int,
                    byte_char(b as u8),
                    states[#[trigger] d.transitions@[cell(i, b)] as int] as int,
                ) by {
                    lemma_cell(i, b, num_states as int);
                    if states[i] != node_id::BOT {
                        assert(explored(cb, m, states[i]));
                        assert(cached(cb, states[i], b) is Some);
                        let v = cached(cb, states[i], b)->0;
                        assert(cached(cf, states[i], b) == Some(v));
                        assert(row_ok(tn, states[i], cf[states[i]]@));
                        assert(cf[states[i]]@[b] == v);
                        assert(end_form(tn, states[i] as int));
                    } else {
                        assert(d.transitions@[cell(i, b)] == 1);
                    }
                }
            }
            lemma_discovered_grow(cb, cf, root, states);
            assert forall|i: int, b: int| 0 <= i < num_states && 0 <= b < 256 implies (#[trigger] d.transitions@[cell(
                i,
                b,
            )]) < num_states && (if states[i] == node_id::BOT {
                states[d.transitions@[cell(i, b)] as int] == node_id::BOT
            } else {
                cached(cf, states[i], b) == Some(states[d.transitions@[cell(i, b)] as int])
            }) by {
                lemma_cell(i, b, num_states as int);
                if states[i] != node_id::BOT {
                    assert(explored(cb, m, states[i]));
                    assert(cached(cb, states[i], b) is Some);
                    let v = cached(cb, states[i], b)->0;
                    assert(m.contains_key(v));
                    assert(cached(cf, states[i], b) == Some(v));
                }
            }
            assert(dfa_built(cf, root, d, max_states));
            reveal(dfa_begin_ok);
            reveal(row_begin_ok);
            if begin_head(tn, root as int) {
                assert forall|b: int| 0 <= b < 256 implies states[#[trigger] d.transitions@[cell(0, b)] as int]
                    == node_id::BOT by {
                    assert(tn[0] is Or);
                    assert(states[0] != node_id::BOT);
                    let v = states[d.transitions@[cell(0, b)] as int];
                    assert(cached(cf, states[0], b) == Some(v));
                    assert(row_ok(tn, states[0], cf[states[0]]@));
                    assert(cf[states[0]]@[b] == v);
                }
            }
            assert(dfa_begin_ok(tn, self.root, d));
            assert(dfa_ok(tn, self.root, d));
        }
        self.precomputed_dfa = Some(d);
        proof {
            assert(regex_inv(*self, tn));
            lemma_dom_bound(old(self).transitions@.dom(), self.transitions@.dom(), states);
        }
        true
    }

    /// `match_from_bytes` on the precomputed table.
    fn match_from_bytes_precomputed(&self, bytes: &[u8], start: usize) -> (r: Option<usize>)
        requires
            self.wf(),
            start <= bytes@.len(),
        ensures
            laws_apply(self.table(), self.root_id()) && self.precomputed_dfa is Some ==> is_longest_from(
                self.table(),
                self.root_id(),
                bytes@,
                start as int,
                r,
            ),
            r matches Some(e) ==> start <= e <= bytes@.len(),
            start < bytes@.len() && self.precomputed_dfa is Some ==> end_root_result(
                self.table(),
                self.root_id(),
                bytes@,
                start as int,
                r,
            ),
            begin_head(self.table(), self.root_id()) && start > 0 && self.precomputed_dfa is Some ==> r is None,
    {
        let dfa = match &self.precomputed_dfa {
            Some(d) => d,
            None => {
                return None;
            },
        };
        let ghost t = self.table();
        let ghost root = self.root as int;
        let ghost states = dfa.states@;
        let ghost ns = states.len() as int;
        let n = bytes.len();
        let mut last_match: Option<usize> = None;
        let mut state_idx: u32 = 0;
        proof {
            assert(dfa_ok(t, self.root, *dfa));
            reveal(dfa_end_ok);
            if begin_head(t, root) {
                assert(nullable(t, LocationKind::Center, t[root]->head as int) == false);
            }
        }
        if dfa.nullable[state_idx as usize] {
            last_match = Some(start);
        }
        proof {
            if end_form(t, root) {
                lemma_end_nullable(t, LocationKind::Center, root);
                assert forall|v: Seq<char>| #[trigger] end_accepts(t, root, v) == end_accepts(
                    t,
                    root,
                    byte_chars(bytes@.subrange(start as int, start as int)) + v,
                ) by {
                    assert(byte_chars(bytes@.subrange(start as int, start as int)) + v =~= v);
                }
            }
            assert(byte_chars(bytes@.subrange(start as int, start as int)) =~= Seq::<char>::empty());
            if laws_apply(t, root) {
                lemma_plain_nullable(t, LocationKind::Center, root);
                assert forall|v: Seq<char>| #[trigger] accepts(t, root, v) == accepts(
                    t,
                    root,
                    byte_chars(bytes@.subrange(start as int, start as int)) + v,
                ) by {
                    assert(byte_chars(bytes@.subrange(start as int, start as int)) + v =~= v);
                }
            }
        }
        let dead_state: u32 = 1;
        let tlen = dfa.transitions.len();
        let mut i: usize = start;
        proof {
            assert(bytes@.subrange(0, n as int) =~= bytes@);
        }
        while i < n
            invariant_except_break
                laws_apply(t, root) ==> plain(t, states[state_idx as int] as int) && forall|v: Seq<char>|
                    #[trigger] accepts(t, states[state_idx as int] as int, v) == accepts(
                        t,
                        root,
                        byte_chars(bytes@.subrange(start as int, i as int)) + v,
                    ),
                laws_apply(t, root) ==> is_longest_from(t, root, bytes@.subrange(0, i as int), start as int, last_match),
                start < n && end_form(t, root) && t.len() < NODE_LIMIT ==> end_form(t, states[state_idx as int] as int)
                    && (forall|v: Seq<char>| #[trigger] end_accepts(t, states[state_idx as int] as int, v) == end_accepts(
                    t,
                    root,
                    byte_chars(bytes@.subrange(start as int, i as int)) + v,
                )) && last_match == (if i == n && end_accepts(t, root, byte_chars(bytes@.subrange(start as int, n as int))) {
                    Some(n)
                } else {
                    None
                }),
                begin_head(t, root) && start > 0 ==> last_match is None && (i == start ==> state_idx == 0) && (i
                    > start ==> states[state_idx as int] == node_id::BOT),
            invariant
                dfa_ok(t, self.root, *dfa),
                dfa_end_ok(t, self.root, *dfa),
                dfa_begin_ok(t, self.root, *dfa),
                t == self.table(),
                table_wf(t),
                root == self.root,
                states == dfa.states@,
                ns == states.len(),
                dead_state == 1,
                tlen == ns * 256,
                n == bytes@.len(),
                bytes@.subrange(0, n as int) == bytes@,
                start <= i <= n,
                last_match matches Some(e) ==> start <= e <= i,
                state_idx < ns,
            ensures
                laws_apply(t, root) ==> is_longest_from(t, root, bytes@, start as int, last_match),
                start < n && end_form(t, root) && t.len() < NODE_LIMIT ==> last_match == (if end_accepts(
                    t,
                    root,
                    byte_chars(bytes@.subrange(start as int, n as int)),
                ) {
                    Some(n)
                } else {
                    None
                }),
                begin_head(t, root) && start > 0 ==> last_match is None,
            decreases n - i,
        {
            let b = bytes[i];
            proof {
                lemma_cell(state_idx as int, b as int, ns);
                assert(dfa.transitions@.len() == ns * 256);
                assert(state_idx as int * 256 <= cell(state_idx as int, b as int));
            }
            let base = (state_idx as usize) * 256;
            let ghost old_idx = state_idx as int;
            let ghost s1 = states[state_idx as int];
            state_idx = dfa.transitions[base + b as usize];
            proof {
                assert(state_idx == dfa.transitions@[cell(old_idx, b as int)]);
                if laws_apply(t, root) {
                    assert(is_derivative(t, s1 as int, byte_char(b), states[dfa.transitions@[cell(old_idx, b as int)] as int] as int));
                }
                lemma_step_residual(t, t, root, s1 as int, states[state_idx as int] as int, bytes@, start as int, i as int);
                if begin_head(t, root) && start > 0 {
                    reveal(dfa_begin_ok);
                    assert(states[dfa.transitions@[cell(old_idx, b as int)] as int] == node_id::BOT);
                }
                if start < n && end_form(t, root) && t.len() < NODE_LIMIT {
                    reveal(dfa_end_ok);
                    assert(end_step(t, s1 as int, byte_char(b), states[dfa.transitions@[cell(old_idx, b as int)] as int] as int));
                    lemma_end_residual(t, t, root, s1 as int, states[state_idx as int] as int, bytes@, start as int, i as int);
                }
            }
            if state_idx == dead_state {
                proof {
                    assert(states[state_idx as int] == node_id::BOT);
                    lemma_dead_end(t, t, root, bytes@, start as int, start as int, i as int, last_match);
                    if start < n && end_form(t, root) && t.len() < NODE_LIMIT {
                        let rest = byte_chars(bytes@.subrange(i + 1, n as int));
                        assert(byte_chars(bytes@.subrange(start as int, n as int)) =~= byte_chars(
                            bytes@.subrange(start as int, i + 1),
                        ) + rest);
                        assert(end_accepts(t, 0, rest) == end_accepts(t, root, byte_chars(bytes@.subrange(start as int, i + 1)) + rest));
                    }
                }
                break;
            }
            let is_end = i + 1 == n;
            let nullable_here = if is_end {
                dfa.nullable_end[state_idx as usize]
            } else {
                dfa.nullable[state_idx as usize]
            };
            proof {
                lemma_nullable_step(t, t, root, states[state_idx as int] as int, bytes@, start as int, start as int, i as int, last_match, is_end, nullable_here);
                if begin_head(t, root) && start > 0 {
                    assert(t[0] == NodeView::<CharSetView>::Or(Seq::empty()));
                    assert(!nullable(t, if is_end { LocationKind::End } else { LocationKind::Center }, 0));
                }
                if start < n && end_form(t, root) && t.len() < NODE_LIMIT {
                    lemma_end_nullable(t, if is_end { LocationKind::End } else { LocationKind::Center }, states[state_idx as int] as int);
                    assert(byte_chars(bytes@.subrange(start as int, i + 1)) + Seq::<char>::empty() =~= byte_chars(
                        bytes@.subrange(start as int, i + 1),
                    ));
                }
            }
            if nullable_here {
                last_match = Some(i + 1);
            }
            i = i + 1;
        }
        proof {
            if i == n && laws_apply(t, root) {
                assert(bytes@.subrange(0, n as int) =~= bytes@);
            }
            reveal(end_root_result);
        }
        last_match
    }
}

/// The words of the bytes from `start` to `j` split after `i`.
proof fn lemma_byte_chars_split(bytes: Seq<u8>, start: int, i: int, j: int)
    requires
        0 <= start <= i <= j <= bytes.len(),
    ensures
        byte_chars(bytes.subrange(start, j)) == byte_chars(bytes.subrange(start, i)) + byte_chars(bytes.subrange(i, j)),
{
    assert(byte_chars(bytes.subrange(start, j)) =~= byte_chars(bytes.subrange(start, i)) + byte_chars(
        bytes.subrange(i, j),
    ));
}

/// Reading byte `i` moves the residual of the root one byte on.
proof fn lemma_step_residual(
    t1: NodeTable,
    t2: NodeTable,
    root: int,
    s1: int,
    next: int,
    bytes: Seq<u8>,
    start: int,
    i: int,
)
    requires
        table_extends(t1, t2),
        0 <= start <= i < bytes.len(),
        0 <= root < t1.len(),
        0 <= s1 < t1.len(),
        laws_apply(t1, root) ==> plain(t1, s1) && forall|v: Seq<char>| #[trigger] accepts(t1, s1, v) == accepts(
            t1,
            root,
            byte_chars(bytes.subrange(start, i)) + v,
        ),
        laws_apply(t2, root) ==> is_derivative(t2, s1, byte_char(bytes[i]), next),
    ensures
        laws_apply(t2, root) ==> plain(t2, next) && forall|v: Seq<char>| #[trigger] accepts(t2, next, v) == accepts(
            t2,
            root,
            byte_chars(bytes.subrange(start, i + 1)) + v,
        ),
{
    if laws_apply(t2, root) {
        lemma_extend_all(t1, t2, root);
        lemma_extend_all(t1, t2, s1);
        let w = byte_chars(bytes.subrange(start, i));
        let c = byte_char(bytes[i]);
        assert(byte_chars(bytes.subrange(start, i + 1)) =~= w.push(c));
        assert forall|v: Seq<char>| #[trigger] accepts(t2, next, v) == accepts(
            t2,
            root,
            byte_chars(bytes.subrange(start, i + 1)) + v,
        ) by {
            assert(w + cons(c, v) =~= w.push(c) + v);
            assert(accepts(t2, next, v) == accepts(t2, s1, cons(c, v)));
            assert(accepts(t1, s1, cons(c, v)) == accepts(t1, root, w + cons(c, v)));
        }
    }
}

/// Once the residual is `BOT`, no longer match exists: the longest match
/// found so far is the longest one.
proof fn lemma_dead_end(
    t1: NodeTable,
    t2: NodeTable,
    root: int,
    bytes: Seq<u8>,
    start: int,
    lo: int,
    i: int,
    last: Option<usize>,
)
    requires
        table_extends(t1, t2),
        table_wf(t2),
        0 <= start <= i < bytes.len(),
        0 <= root < t1.len(),
        laws_apply(t2, root) ==> forall|v: Seq<char>| #[trigger] accepts(t2, 0, v) == accepts(
            t2,
            root,
            byte_chars(bytes.subrange(start, i + 1)) + v,
        ),
        start <= lo <= i + 1,
        laws_apply(t1, root) ==> is_longest_beyond(t1, root, bytes.subrange(0, i), start, lo, last),
    ensures
        laws_apply(t2, root) ==> is_longest_beyond(t2, root, bytes, start, lo, last),
{
    if laws_apply(t2, root) {
        lemma_extend_all(t1, t2, root);
        assert forall|e2: int| start <= e2 <= i implies #[trigger] matches_at(t2, root, bytes, start, e2) == matches_at(
            t1,
            root,
            bytes.subrange(0, i),
            start,
            e2,
        ) by {
            assert(bytes.subrange(0, i).subrange(start, e2) =~= bytes.subrange(start, e2));
        }
        assert forall|e2: int| i < e2 <= bytes.len() implies !#[trigger] matches_at(t2, root, bytes, start, e2) by {
            lemma_byte_chars_split(bytes, start, i + 1, e2);
            lemma_eps_bot(t2, byte_chars(bytes.subrange(i + 1, e2)));
        }
    }
}

/// After reading byte `i`, the match ending there counts when the residual
/// is nullable.
proof fn lemma_nullable_step(
    t1: NodeTable,
    t2: NodeTable,
    root: int,
    st: int,
    bytes: Seq<u8>,
    start: int,
    lo: int,
    i: int,
    last: Option<usize>,
    is_end: bool,
    nh: bool,
)
    requires
        table_extends(t1, t2),
        table_wf(t2),
        0 <= start <= i < bytes.len(),
        i + 1 <= usize::MAX,
        0 <= root < t1.len(),
        laws_apply(t2, root) ==> plain(t2, st) && forall|v: Seq<char>| #[trigger] accepts(t2, st, v) == accepts(
            t2,
            root,
            byte_chars(bytes.subrange(start, i + 1)) + v,
        ),
        start <= lo <= i + 1,
        laws_apply(t1, root) ==> is_longest_beyond(t1, root, bytes.subrange(0, i), start, lo, last),
        nh == nullable(
            t2,
            if is_end {
                LocationKind::End
            } else {
                LocationKind::Center
            },
            st,
        ),
    ensures
        laws_apply(t2, root) ==> is_longest_beyond(
            t2,
            root,
            bytes.subrange(0, i + 1),
            start,
            lo,
            if nh {
                Some((i + 1) as usize)
            } else {
                last
            },
        ),
{
    if laws_apply(t2, root) {
        lemma_extend_all(t1, t2, root);
        let loc = if is_end {
            LocationKind::End
        } else {
            LocationKind::Center
        };
        lemma_plain_nullable(t2, loc, st);
        let w = byte_chars(bytes.subrange(start, i + 1));
        assert(w + Seq::<char>::empty() =~= w);
        assert(nh == matches_at(t2, root, bytes, start, i + 1));
        assert forall|e2: int| start <= e2 <= i implies #[trigger] matches_at(
            t2,
            root,
            bytes.subrange(0, i + 1),
            start,
            e2,
        ) == matches_at(t1, root, bytes.subrange(0, i), start, e2) by {
            assert(bytes.subrange(0, i + 1).subrange(start, e2) =~= bytes.subrange(0, i).subrange(start, e2));
        }
        assert(bytes.subrange(0, i + 1).subrange(start, i + 1) =~= bytes.subrange(start, i + 1));
    }
}

/// The ASCII characters that can begin a word of node `id`, as the start
/// set is computed: singletons give their ASCII part, alternations the
/// union, intersections the intersection, a complement the complement, a
/// concatenation its head's set and, when the head is nullable at the
/// beginning, its tail's set too; anchors give nothing, and the built-in
/// `TOP`, `TOP_STAR` and `TOP_PLUS` give every character.
pub open spec fn first_bytes(t: NodeTable, id: int) -> u128
    decreases id, 1int, 0int,
{
    if id < 0 || id >= t.len() {
        0
    } else if id == 0 || id == 1 || id == 5 || id == 6 {
        0
    } else if id == 2 || id == 3 || id == 4 {
        !0u128
    } else {
        match t[id] {
            NodeView::Singleton(cs) => cs.0,
            NodeView::Loop { node, .. } => if node < id {
                first_bytes(t, node as int)
            } else {
                0
            },
            NodeView::Or(ns) => union_first_bytes(t, ns, id, ns.len() as int),
            NodeView::And(ns) => if ns.len() == 0 {
                !0u128
            } else {
                inter_first_bytes(t, ns, id, ns.len() as int)
            },
            NodeView::Not(_) => !0u128,
            NodeView::Concat { head, tail } => if head < id && tail < id {
                if nullable(t, LocationKind::Begin, head as int) {
                    first_bytes(t, head as int) | first_bytes(t, tail as int)
                } else {
                    first_bytes(t, head as int)
                }
            } else {
                0
            },
            NodeView::LookAround { node, .. } => if node < id {
                first_bytes(t, node as int)
            } else {
                0
            },
            NodeView::Begin => 0,
            NodeView::End => 0,
        }
    }
}

/// The union of the start sets of the first `k` children.
pub open spec fn union_first_bytes(t: NodeTable, ns: Seq<RegexNodeId>, id: int, k: int) -> u128
    decreases id, 0int, k,
{
    if k <= 0 || k > ns.len() {
        0
    } else {
        let rest = union_first_bytes(t, ns, id, k - 1);
        if 0 <= ns[k - 1] < id {
            rest | first_bytes(t, ns[k - 1] as int)
        } else {
            rest
        }
    }
}

/// The intersection of the start sets of the first `k` children.
pub open spec fn inter_first_bytes(t: NodeTable, ns: Seq<RegexNodeId>, id: int, k: int) -> u128
    decreases id, 0int, k,
{
    if k <= 0 || k > ns.len() {
        !0u128
    } else {
        let rest = inter_first_bytes(t, ns, id, k - 1);
        if 0 <= ns[k - 1] < id {
            rest & first_bytes(t, ns[k - 1] as int)
        } else {
            rest
        }
    }
}

/// Every cached start set is the node's start set.
spec fn startset_cache_ok(t: NodeTable, m: Map<RegexNodeId, u128>) -> bool {
    forall|s: RegexNodeId| #[trigger] m.contains_key(s) ==> s < t.len() && m[s] == first_bytes(t, s as int)
}

/// The start set of node `node_id`.
fn compute_startset(builder: &RegexBuilder<CharSet>, node_id: RegexNodeId) -> (r: u128)
    requires
        builder.wf(),
        node_id < builder.spec_len(),
    ensures
        r == first_bytes(builder.table(), node_id as int),
{
    let mut cache: FxHashMap<RegexNodeId, u128> = id_map_new();
    compute_startset_inner(builder, node_id, &mut cache)
}

/// The start set of node `node_id`, through a cache of start sets.
fn compute_startset_inner(
    builder: &RegexBuilder<CharSet>,
    node_id: RegexNodeId,
    cache: &mut FxHashMap<RegexNodeId, u128>,
) -> (r: u128)
    requires
        builder.wf(),
        node_id < builder.spec_len(),
        startset_cache_ok(builder.table(), old(cache)@),
    ensures
        r == first_bytes(builder.table(), node_id as int),
        startset_cache_ok(builder.table(), final(cache)@),
    decreases node_id,
{
    let ghost t = builder.table();
    match id_map_get(cache, node_id) {
        Some(cached_set) => {
            return cached_set;
        },
        None => {},
    }
    let result: u128 = if node_id == node_id::BOT || node_id == node_id::EPS {
        0
    } else if node_id == node_id::TOP || node_id == node_id::TOP_STAR || node_id == node_id::TOP_PLUS {
        !0u128
    } else if node_id == node_id::BEGIN_ANCHOR || node_id == node_id::END_ANCHOR {
        0
    } else {
        proof {
            assert(node_ok(t[node_id as int], node_id as int));
        }
        match builder.node(node_id) {
            RegexNode::Singleton(set) => set.ascii_bits(),
            RegexNode::Loop { node, .. } => compute_startset_inner(builder, *node, cache),
            RegexNode::Or(nodes) => {
                proof {
                    if let NodeView::Or(ms) = t[node_id as int] {
                        assert(ms == nodes@);
                        assert(forall|j: int| 0 <= j < ms.len() ==> (#[trigger] ms[j]) < node_id);
                    }
                }
                let mut acc: u128 = 0;
                let mut k: usize = 0;
                while k < nodes.len()
                    invariant
                        builder.wf(),
                        builder.table() == t,
                        7 <= node_id < t.len(),
                        t[node_id as int] == NodeView::<CharSetView>::Or(nodes@),
                        forall|j: int| 0 <= j < nodes@.len() ==> (#[trigger] nodes@[j]) < node_id,
                        k <= nodes@.len(),
                        acc == union_first_bytes(t, nodes@, node_id as int, k as int),
                        startset_cache_ok(t, cache@),
                    decreases nodes@.len() - k,
                {
                    let sub = compute_startset_inner(builder, nodes[k], cache);
                    acc = acc | sub;
                    k = k + 1;
                }
                acc
            },
            RegexNode::And(nodes) => {
                proof {
                    if let NodeView::And(ms) = t[node_id as int] {
                        assert(ms == nodes@);
                        assert(forall|j: int| 0 <= j < ms.len() ==> (#[trigger] ms[j]) < node_id);
                    }
                }
                if nodes.len() == 0 {
                    !0u128
                } else {
                    let mut acc: u128 = !0u128;
                    let mut k: usize = 0;
                    while k < nodes.len()
                        invariant
                            builder.wf(),
                            builder.table() == t,
                            7 <= node_id < t.len(),
                            t[node_id as int] == NodeView::<CharSetView>::And(nodes@),
                            forall|j: int| 0 <= j < nodes@.len() ==> (#[trigger] nodes@[j]) < node_id,
                            k <= nodes@.len(),
                            acc == inter_first_bytes(t, nodes@, node_id as int, k as int),
                            startset_cache_ok(t, cache@),
                        decreases nodes@.len() - k,
                    {
                        let sub = compute_startset_inner(builder, nodes[k], cache);
                        acc = acc & sub;
                        k = k + 1;
                    }
                    acc
                }
            },
            RegexNode::Not(_) => !0u128,
            RegexNode::Concat { head, tail } => {
                let head_startset = compute_startset_inner(builder, *head, cache);
                if is_nullable(builder, LocationKind::Begin, *head) {
                    head_startset | compute_startset_inner(builder, *tail, cache)
                } else {
                    head_startset
                }
            },
            RegexNode::LookAround { node, .. } => compute_startset_inner(builder, *node, cache),
            RegexNode::Begin => 0,
            RegexNode::End => 0,
        }
    };
    id_map_insert(cache, node_id, result);
    result
}

/// The number of bits of `x` set below `n`.
pub open spec fn bit_count(x: u128, n: int) -> nat
    decreases n,
{
    if n <= 0 {
        0
    } else {
        bit_count(x, n - 1) + if bit_of(x, (n - 1) as u32) {
            1nat
        } else {
            0nat
        }
    }
}

/// The number of set bits of `x`.
fn count_bits(x: u128) -> (r: u32)
    ensures
        r == bit_count(x, 128),
{
    let mut c: u32 = 0;
    let mut i: u32 = 0;
    while i < 128
        invariant
            i <= 128,
            c == bit_count(x, i as int),
            c <= i,
        decreases 128 - i,
    {
        proof {
            lemma_bits(x, 0, i, i);
        }
        if x & (1u128 << i) != 0 {
            c = c + 1;
        }
        i = i + 1;
    }
    c
}

/// No bit below `n` is set: the count is 0.
proof fn lemma_bit_count_zero(x: u128, n: int)
    requires
        forall|j: int| 0 <= j < n ==> !#[trigger] bit_of(x, j as u32),
    ensures
        bit_count(x, n) == 0,
    decreases n,
{
    if n > 0 {
        lemma_bit_count_zero(x, n - 1);
    }
}

/// Node `n` is a singleton whose ASCII part is the one character `b`.
pub open spec fn single_byte_node(t: NodeTable, n: int, b: u8) -> bool {
    &&& 0 <= n < t.len()
    &&& t[n] matches NodeView::Singleton(cs) && bit_count(cs.0, 128) == 1 && bit_of(cs.0, b as u32)
    &&& b < 128
}

/// The ASCII character of a singleton node whose ASCII part holds exactly
/// one character.
fn extract_singleton_byte(builder: &RegexBuilder<CharSet>, node: RegexNodeId) -> (r: Option<u8>)
    requires
        builder.wf(),
        node < builder.spec_len(),
    ensures
        r matches Some(b) ==> single_byte_node(builder.table(), node as int, b),
        r is None ==> !(builder.table()[node as int] matches NodeView::Singleton(cs) && bit_count(cs.0, 128) == 1),
{
    match builder.node(node) {
        RegexNode::Singleton(charset) => {
            let ascii = charset.ascii_bits();
            if count_bits(ascii) == 1 {
                let mut i: u8 = 0;
                while i < 128
                    invariant
                        i <= 128,
                        forall|j: int| 0 <= j < i ==> !#[trigger] bit_of(ascii, j as u32),
                        bit_count(ascii, 128) == 1,
                        node < builder.table().len(),
                        builder.table()[node as int] == NodeView::<CharSetView>::Singleton(charset@),
                        charset@.0 == ascii,
                    decreases 128 - i,
                {
                    proof {
                        lemma_bits(ascii, 0, i as u32, i as u32);
                    }
                    if ascii & (1u128 << i) != 0 {
                        return Some(i);
                    }
                    i = i + 1;
                }
                proof {
                    lemma_bit_count_zero(ascii, 128);
                }
            }
            None
        },
        _ => None,
    }
}

/// `p` spells the literal prefix of node `n` through a chain of
/// concatenations whose heads are single ASCII characters, ending at
/// `target`.
pub open spec fn literal_chain(t: NodeTable, n: int, p: Seq<u8>, target: int) -> bool
    decreases p.len(),
{
    if p.len() == 0 {
        n == target
    } else {
        &&& 0 <= n < t.len()
        &&& t[n] matches NodeView::Concat { head, tail } && single_byte_node(t, head as int, p[0]) && literal_chain(
            t,
            tail as int,
            p.drop_first(),
            target,
        )
    }
}

/// `p` is a literal prefix of node `root`: a chain of concatenations with
/// single-character heads, or a lone single-character node.
pub open spec fn literal_prefix_of(t: NodeTable, root: int, p: Seq<u8>) -> bool {
    (exists|target: int| literal_chain(t, root, p, target)) || (p.len() == 1 && single_byte_node(t, root, p[0]))
}

/// What the acceleration of a search promises: the state after a literal
/// prefix is its residual, a literal prefix is one of the root, and start
/// bytes are the one to three ASCII bytes of the start set of a root that
/// does not match the empty word at the beginning.
spec fn accel_ok(t: NodeTable, root: RegexNodeId, accel: PrefixAccelerator, st: Option<RegexNodeId>) -> bool {
    &&& prefix_ok(t, root, accel, st)
    &&& (st is Some ==> prefix_bytes(accel).len() > 0)
    &&& (accel matches PrefixAccelerator::SingleByte(_) ==> st is Some)
    &&& (accel matches PrefixAccelerator::Literal(v) ==> st is Some && v@.len() >= 2)
    &&& (prefix_bytes(accel).len() > 0 ==> literal_prefix_of(t, root as int, prefix_bytes(accel)))
    &&& (accel matches PrefixAccelerator::StartBytes(v) ==> st is None && 1 <= v@.len() <= 3 && !nullable(
        t,
        LocationKind::Begin,
        root as int,
    ) && v@.len() == bit_count(first_bytes(t, root as int), 128) && (forall|k: int|
        0 <= k < v@.len() ==> (#[trigger] v@[k]) < 128 && bit_of(first_bytes(t, root as int), v@[k] as u32)) && (forall|
        i: int,
    |
        0 <= i < 128 && #[trigger] bit_of(first_bytes(t, root as int), i as u32) ==> v@.contains(i as u8)))
}

/// Node `n` is a concatenation whose head is a single ASCII character.
pub open spec fn concat_with_byte_head(t: NodeTable, n: int) -> bool {
    t[n] matches NodeView::Concat { head, tail } && exists|b: u8| #[trigger] single_byte_node(t, head as int, b)
}

/// `p` is the literal prefix that the search collects from `root`: the
/// bytes of the longest chain of concatenations with single-character heads
/// or, where the root is no such concatenation, the byte of a lone
/// single-character root.
pub open spec fn collected_prefix(t: NodeTable, root: int, p: Seq<u8>) -> bool {
    ||| exists|target: int|
        #[trigger] literal_chain(t, root, p, target) && 0 <= target < t.len() && !concat_with_byte_head(t, target) && (
        p.len() > 0 || !exists|b: u8| #[trigger] single_byte_node(t, root, b))
    ||| p.len() == 1 && single_byte_node(t, root, p[0])
}

/// What the search is accelerated by, given the collected literal prefix
/// `p`: without a prefix, the start bytes where the root does not match the
/// empty word at the beginning and one to three ASCII bytes can begin a
/// match, and nothing else; with one, the prefix and the state after it, or
/// nothing where that state is `BOT` and the root accepts no word that
/// begins with the prefix.
spec fn accel_choice(t: NodeTable, root: RegexNodeId, p: Seq<u8>, accel: PrefixAccelerator, st: Option<RegexNodeId>) -> bool {
    if p.len() == 0 {
        &&& st is None
        &&& if !nullable(t, LocationKind::Begin, root as int) && 1 <= bit_count(first_bytes(t, root as int), 128) <= 3 {
            accel is StartBytes
        } else {
            accel is Plain
        }
    } else {
        ||| prefix_bytes(accel) == p && st is Some
        ||| accel is Plain && st is None && (laws_apply(t, root as int) ==> forall|v: Seq<char>|
            !#[trigger] accepts(t, root as int, byte_chars(p) + v))
    }
}

/// The literal prefix of the root and the state after it, or else the
/// start bytes of a root that does not match the empty word.
fn compute_prefix_acceleration(builder: &mut RegexBuilder<CharSet>, root: RegexNodeId) -> (r: (
    PrefixAccelerator,
    Option<RegexNodeId>,
))
    requires
        old(builder).wf(),
        root < old(builder).spec_len(),
    ensures
        final(builder).wf(),
        table_extends(old(builder).table(), final(builder).table()),
        accel_ok(final(builder).table(), root, r.0, r.1),
        exists|p: Seq<u8>|
            #[trigger] collected_prefix(old(builder).table(), root as int, p) && accel_choice(
                final(builder).table(),
                root,
                p,
                r.0,
                r.1,
            ),
{
    let ghost t0 = builder.table();
    let mut prefix_bytes: Vec<u8> = Vec::new();
    let mut current = root;
    proof {
        assert(literal_chain(t0, root as int, prefix_bytes@, current as int));
    }
    loop
        invariant_except_break
            literal_chain(t0, root as int, prefix_bytes@, current as int),
        invariant
            builder.wf(),
            builder.table() == t0,
            t0 == old(builder).table(),
            current < t0.len(),
        ensures
            literal_prefix_of(t0, root as int, prefix_bytes@) || prefix_bytes@.len() == 0,
            collected_prefix(t0, root as int, prefix_bytes@),
        decreases current,
    {
        proof {
            assert(node_ok(t0[current as int], current as int));
        }
        match builder.node(current) {
            RegexNode::Concat { head, tail } => {
                let (head, tail) = (*head, *tail);
                match extract_singleton_byte(builder, head) {
                    Some(byte) => {
                        let ghost p0 = prefix_bytes@;
                        prefix_bytes.push(byte);
                        proof {
                            lemma_chain_extend(t0, root as int, p0, current as int, byte, tail as int);
                        }
                        current = tail;
                    },
                    None => {
                        proof {
                            if prefix_bytes@.len() > 0 {
                                assert(literal_chain(t0, root as int, prefix_bytes@, current as int));
                                assert(literal_prefix_of(t0, root as int, prefix_bytes@));
                            } else {
                                assert(current == root);
                                assert(!exists|b: u8| #[trigger] single_byte_node(t0, root as int, b));
                            }
                            assert(!exists|b: u8| #[trigger] single_byte_node(t0, head as int, b));
                            assert(!concat_with_byte_head(t0, current as int));
                            assert(literal_chain(t0, root as int, prefix_bytes@, current as int));
                        }
                        break;
                    },
                }
            },
            _ => {
                proof {
                    assert(!concat_with_byte_head(t0, current as int));
                }
                if prefix_bytes.len() == 0 {
                    match extract_singleton_byte(builder, current) {
                        Some(byte) => {
                            prefix_bytes.push(byte);
                            proof {
                                assert(root == current);
                                assert(prefix_bytes@[0] == byte);
                                assert(literal_prefix_of(t0, root as int, prefix_bytes@));
                            }
                        },
                        None => {
                            proof {
                                assert(root == current);
                                assert(!exists|b: u8| #[trigger] single_byte_node(t0, root as int, b));
                                assert(literal_chain(t0, root as int, prefix_bytes@, current as int));
                            }
                        },
                    }
                } else {
                    proof {
                        assert(literal_chain(t0, root as int, prefix_bytes@, current as int));
                        assert(literal_prefix_of(t0, root as int, prefix_bytes@));
                    }
                }
                break;
            },
        }
    }
    let mut prefix_end_state: Option<RegexNodeId> = None;
    if prefix_bytes.len() > 0 {
        let mut state = root;
        let mut k: usize = 0;
        proof {
            assert(byte_chars(prefix_bytes@.subrange(0, 0)) =~= Seq::<char>::empty());
            assert forall|v: Seq<char>| #[trigger] accepts(t0, root as int, v) == accepts(
                t0,
                root as int,
                byte_chars(prefix_bytes@.subrange(0, 0)) + v,
            ) by {
                assert(byte_chars(prefix_bytes@.subrange(0, 0)) + v =~= v);
            }
            assert forall|v: Seq<char>| #[trigger] end_accepts(t0, root as int, v) == end_accepts(
                t0,
                root as int,
                byte_chars(prefix_bytes@.subrange(0, 0)) + v,
            ) by {
                assert(byte_chars(prefix_bytes@.subrange(0, 0)) + v =~= v);
            }
        }
        while k < prefix_bytes.len()
            invariant
                builder.wf(),
                table_extends(t0, builder.table()),
                t0 == old(builder).table(),
                literal_prefix_of(t0, root as int, prefix_bytes@),
                collected_prefix(t0, root as int, prefix_bytes@),
                root < t0.len(),
                k <= prefix_bytes@.len(),
                state < builder.table().len(),
                laws_apply(builder.table(), root as int) ==> plain(builder.table(), state as int) && forall|
                    v: Seq<char>,
                | #[trigger] accepts(builder.table(), state as int, v) == accepts(
                    builder.table(),
                    root as int,
                    byte_chars(prefix_bytes@.subrange(0, k as int)) + v,
                ),
                end_form(builder.table(), root as int) && builder.table().len() < NODE_LIMIT ==> end_form(
                    builder.table(),
                    state as int,
                ) && forall|v: Seq<char>| #[trigger] end_accepts(builder.table(), state as int, v) == end_accepts(
                    builder.table(),
                    root as int,
                    byte_chars(prefix_bytes@.subrange(0, k as int)) + v,
                ),
            decreases prefix_bytes@.len() - k,
        {
            let byte = prefix_bytes[k];
            let minterm = CharSet::ascii_singleton(byte);
            let ghost t1 = builder.table();
            let ghost s1 = state;
            let next = derivative(builder, LocationKind::Center, &minterm, state);
            proof {
                let t2 = builder.table();
                assert(is_char_minterm(minterm@, byte_char(byte)));
                if laws_apply(t2, root as int) {
                    lemma_extend_all(t1, t2, root as int);
                    lemma_extend_all(t1, t2, s1 as int);
                }
                lemma_step_residual(t1, t2, root as int, s1 as int, next as int, prefix_bytes@, 0, k as int);
                if end_form(t2, root as int) && t2.len() < NODE_LIMIT {
                    lemma_end_extend(t1, t2, root as int);
                    lemma_end_extend(t1, t2, s1 as int);
                    assert(end_step(t2, s1 as int, byte_char(byte), next as int));
                    lemma_end_residual(t1, t2, root as int, s1 as int, next as int, prefix_bytes@, 0, k as int);
                }
            }
            state = next;
            if state == node_id::BOT {
                proof {
                    let t2 = builder.table();
                    let p = prefix_bytes@;
                    let q = p.subrange(0, k + 1);
                    if laws_apply(t2, root as int) {
                        assert forall|v: Seq<char>| !#[trigger] accepts(t2, root as int, byte_chars(p) + v) by {
                            let rest = byte_chars(p.subrange(k + 1, p.len() as int)) + v;
                            lemma_eps_bot(t2, rest);
                            assert(!accepts(t2, next as int, rest));
                            assert(byte_chars(p) =~= byte_chars(q) + byte_chars(p.subrange(k + 1, p.len() as int)));
                            assert(byte_chars(p) + v =~= byte_chars(q) + rest);
                        }
                    }
                    assert(accel_choice(t2, root, p, PrefixAccelerator::Plain, None));
                    assert(collected_prefix(t0, root as int, p));
                }
                return (PrefixAccelerator::Plain, None);
            }
            k = k + 1;
        }
        proof {
            assert(prefix_bytes@.subrange(0, prefix_bytes@.len() as int) =~= prefix_bytes@);
        }
        prefix_end_state = Some(state);
    }
    let ghost t3 = builder.table();
    proof {
        if prefix_bytes@.len() > 0 {
            lemma_literal_prefix_extend(t0, t3, root as int, prefix_bytes@);
        }
    }
    let is_nullable_start = is_nullable(builder, LocationKind::Begin, root);
    if prefix_bytes.len() == 0 {
        if !is_nullable_start {
            let startset = compute_startset(builder, root);
            let count = count_bits(startset);
            if count > 0 && count <= 3 {
                let mut start_bytes: Vec<u8> = Vec::new();
                let mut i: u8 = 0;
                while i < 128
                    invariant
                        i <= 128,
                        start_bytes@.len() == bit_count(startset, i as int),
                        forall|k: int| 0 <= k < start_bytes@.len() ==> (#[trigger] start_bytes@[k]) < i && bit_of(
                            startset,
                            start_bytes@[k] as u32,
                        ),
                        forall|j: int| 0 <= j < i && #[trigger] bit_of(startset, j as u32) ==> start_bytes@.contains(j as u8),
                    decreases 128 - i,
                {
                    proof {
                        lemma_bits(startset, 0, i as u32, i as u32);
                    }
                    if startset & (1u128 << i) != 0 {
                        let ghost sb = start_bytes@;
                        start_bytes.push(i);
                        proof {
                            assert forall|j: int| 0 <= j < i + 1 && #[trigger] bit_of(startset, j as u32) implies start_bytes@.contains(j as u8) by {
                                if j < i {
                                    let kk = choose|kk: int| 0 <= kk < sb.len() && sb[kk] == j as u8;
                                    assert(start_bytes@[kk] == j as u8);
                                } else {
                                    assert(start_bytes@[sb.len() as int] == i);
                                }
                            }
                        }
                    }
                    i = i + 1;
                }
                return (PrefixAccelerator::StartBytes(start_bytes), None);
            }
        }
        return (PrefixAccelerator::Plain, None);
    }
    if prefix_bytes.len() == 1 {
        let accel = PrefixAccelerator::SingleByte(prefix_bytes[0]);
        proof {
            assert(self::prefix_bytes(accel) =~= prefix_bytes@);
            assert(prefix_end_state is Some);
        }
        (accel, prefix_end_state)
    } else {
        let ghost pb = prefix_bytes@;
        let accel = PrefixAccelerator::Literal(prefix_bytes);
        proof {
            assert(self::prefix_bytes(accel) == pb);
            assert(prefix_end_state is Some);
        }
        (accel, prefix_end_state)
    }
}

/// A literal chain grows by one concatenation with a single-character head.
proof fn lemma_chain_extend(t: NodeTable, n: int, p: Seq<u8>, target: int, b: u8, tail: int)
    requires
        literal_chain(t, n, p, target),
        0 <= target < t.len(),
        t[target] matches NodeView::Concat { head, tail: tl } && tl == tail && single_byte_node(t, head as int, b),
    ensures
        literal_chain(t, n, p.push(b), tail),
    decreases p.len(),
{
    if p.len() == 0 {
        assert(n == target);
        assert(p.push(b).drop_first() =~= Seq::<u8>::empty());
        assert(literal_chain(t, tail, Seq::<u8>::empty(), tail));
        assert(p.push(b)[0] == b);
    } else {
        if let NodeView::Concat { head, tail: next } = t[n] {
            lemma_chain_extend(t, next as int, p.drop_first(), target, b, tail);
            assert(p.push(b).drop_first() =~= p.drop_first().push(b));
            assert(p.push(b)[0] == p[0]);
        }
    }
}

/// A literal chain stays one when the table grows.
proof fn lemma_chain_extend_table(t1: NodeTable, t2: NodeTable, n: int, p: Seq<u8>, target: int)
    requires
        table_extends(t1, t2),
        literal_chain(t1, n, p, target),
    ensures
        literal_chain(t2, n, p, target),
    decreases p.len(),
{
    if p.len() > 0 {
        assert(t2[n] == t1[n]);
        if let NodeView::Concat { head, tail } = t1[n] {
            assert(t2[head as int] == t1[head as int]);
            lemma_chain_extend_table(t1, t2, tail as int, p.drop_first(), target);
        }
    }
}

/// A literal prefix stays one when the table grows.
proof fn lemma_literal_prefix_extend(t1: NodeTable, t2: NodeTable, root: int, p: Seq<u8>)
    requires
        table_extends(t1, t2),
        literal_prefix_of(t1, root, p),
    ensures
        literal_prefix_of(t2, root, p),
{
    if exists|target: int| literal_chain(t1, root, p, target) {
        let target = choose|target: int| literal_chain(t1, root, p, target);
        lemma_chain_extend_table(t1, t2, root, p, target);
    } else {
        assert(t2[root] == t1[root]);
    }
}

/// `memchr::memchr`: the index of the first occurrence of `needle` in
/// `haystack`.
#[verifier::external_body]
fn memchr_find(needle: u8, haystack: &[u8]) -> (r: Option<usize>)
    ensures
        match r {
            Some(i) => i < haystack@.len() && haystack@[i as int] == needle && forall|j: int|
                0 <= j < i ==> haystack@[j] != needle,
            None => forall|j: int| 0 <= j < haystack@.len() ==> haystack@[j] != needle,
        },
{
    memchr::memchr(needle, haystack)
}

/// `memchr::memchr2`: the index of the first occurrence of either needle in
/// `haystack`.
#[verifier::external_body]
fn memchr2_find(needle1: u8, needle2: u8, haystack: &[u8]) -> (r: Option<usize>)
    ensures
        match r {
            Some(i) => i < haystack@.len() && (haystack@[i as int] == needle1 || haystack@[i as int] == needle2)
                && forall|j: int| 0 <= j < i ==> haystack@[j] != needle1 && haystack@[j] != needle2,
            None => forall|j: int| 0 <= j < haystack@.len() ==> haystack@[j] != needle1 && haystack@[j] != needle2,
        },
{
    memchr::memchr2(needle1, needle2, haystack)
}

/// `memchr::memchr3`: the index of the first occurrence of any of the three
/// needles in `haystack`.
#[verifier::external_body]
fn memchr3_find(needle1: u8, needle2: u8, needle3: u8, haystack: &[u8]) -> (r: Option<usize>)
    ensures
        match r {
            Some(i) => i < haystack@.len() && (haystack@[i as int] == needle1 || haystack@[i as int] == needle2
                || haystack@[i as int] == needle3) && forall|j: int|
                0 <= j < i ==> haystack@[j] != needle1 && haystack@[j] != needle2 && haystack@[j] != needle3,
            None => forall|j: int|
                0 <= j < haystack@.len() ==> haystack@[j] != needle1 && haystack@[j] != needle2 && haystack@[j]
                    != needle3,
        },
{
    memchr::memchr3(needle1, needle2, needle3, haystack)
}

/// `needle` occurs in `haystack` at index `i`.
pub open spec fn occurs_at(haystack: Seq<u8>, needle: Seq<u8>, i: int) -> bool {
    0 <= i && i + needle.len() <= haystack.len() && haystack.subrange(i, i + needle.len()) == needle
}

/// `memchr::memmem::find`: the index of the first occurrence of `needle` in
/// `haystack`.
#[verifier::external_body]
fn memmem_find(haystack: &[u8], needle: &[u8]) -> (r: Option<usize>)
    ensures
        match r {
            Some(i) => occurs_at(haystack@, needle@, i as int) && forall|j: int|
                0 <= j < i ==> !#[trigger] occurs_at(haystack@, needle@, j),
            None => forall|j: int| 0 <= j ==> !#[trigger] occurs_at(haystack@, needle@, j),
        },
{
    memchr::memmem::find(haystack, needle)
}

/// A copy of a byte string.
fn copy_bytes(v: &Vec<u8>) -> (r: Vec<u8>)
    ensures
        r@ == v@,
{
    let mut out: Vec<u8> = Vec::new();
    let mut i: usize = 0;
    while i < v.len()
        invariant
            i <= v@.len(),
            out@ == v@.subrange(0, i as int),
        decreases v@.len() - i,
    {
        out.push(v[i]);
        i = i + 1;
        proof {
            assert(out@ =~= v@.subrange(0, i as int));
        }
    }
    proof {
        assert(out@ =~= v@);
    }
    out
}

/// The next position to try after position `pos` holding `b`: the start of
/// the next UTF-8 character, or the end of the input when that lies beyond;
/// the next byte when `b` continues a character.
pub open spec fn step_from(pos: int, b: u8, n: int) -> int {
    if is_continuation_byte(b) {
        pos + 1
    } else if pos + spec_utf8_char_width(b) <= n {
        pos + spec_utf8_char_width(b)
    } else {
        n
    }
}

/// The next position to try after position `pos` holding `b`.
fn next_char_start(pos: usize, b: u8, n: usize) -> (r: usize)
    requires
        pos < n,
    ensures
        pos < r <= n,
        r == step_from(pos as int, b, n as int),
        b < 0x80 ==> r == pos + 1,
{
    if 0x80 <= b && b < 0xC0 {
        return pos + 1;
    }
    let w = utf8_char_width(b);
    if w <= n - pos {
        pos + w
    } else {
        n
    }
}

/// In valid UTF-8, the bytes that follow the first byte of a character, up
/// to its width, lie within the input and continue the character.
proof fn lemma_char_tail(bytes: Seq<u8>, q: int)
    requires
        valid_utf8(bytes),
        0 <= q < bytes.len(),
        !is_continuation_byte(bytes[q]),
    ensures
        q + spec_utf8_char_width(bytes[q]) <= bytes.len(),
        forall|k: int| q < k < q + spec_utf8_char_width(bytes[q]) ==> is_continuation_byte(#[trigger] bytes[k]),
{
    vstd::utf8::is_char_boundary_iff_not_is_continuation_byte(bytes, q);
    vstd::utf8::valid_utf8_split(bytes, q);
    let s = bytes.subrange(q, bytes.len() as int);
    assert(s.len() > 0);
    assert(vstd::utf8::valid_first_scalar(s));
    assert(s[0] == bytes[q]);
    assert forall|k: int| q < k < q + spec_utf8_char_width(bytes[q]) implies is_continuation_byte(#[trigger] bytes[k]) by {
        assert(s[k - q] == bytes[k]);
    }
}

/// Valid UTF-8 begins with a character start.
proof fn lemma_first_char_start(bytes: Seq<u8>)
    requires
        valid_utf8(bytes),
        bytes.len() > 0,
    ensures
        char_start(bytes, 0),
{
    vstd::utf8::is_char_boundary_start_end_of_seq(bytes);
    vstd::utf8::is_char_boundary_iff_not_is_continuation_byte(bytes, 0);
}

/// In valid UTF-8, the position the search tries after a character start
/// is a character start too.
proof fn lemma_next_char_start(bytes: Seq<u8>, q: int)
    requires
        valid_utf8(bytes),
        0 <= q < bytes.len(),
        char_start(bytes, q),
    ensures
        char_start(bytes, step_from(q, bytes[q], bytes.len() as int)),
{
    lemma_char_tail(bytes, q);
    let w = spec_utf8_char_width(bytes[q]);
    if q + w < bytes.len() {
        vstd::utf8::is_char_boundary_iff_not_is_continuation_byte(bytes, q);
        vstd::utf8::valid_utf8_split(bytes, q);
        let s = bytes.subrange(q, bytes.len() as int);
        assert(s[0] == bytes[q]);
        reveal_with_fuel(valid_utf8, 2);
        assert(vstd::utf8::valid_first_scalar(s));
        assert(vstd::utf8::length_of_first_scalar(s) == w);
        let rest = vstd::utf8::pop_first_scalar(s);
        assert(rest.len() > 0);
        assert(vstd::utf8::valid_first_scalar(rest));
        assert(rest[0] == bytes[q + w]);
    }
}

/// Over ASCII bytes, every position within the input is a character start.
proof fn lemma_ascii_char_start(bytes: Seq<u8>, r: Option<Match>)
    requires
        ascii_bytes(bytes),
        r matches Some(m) ==> m.start <= bytes.len(),
    ensures
        r matches Some(m) ==> char_start(bytes, m.start as int),
{
    if let Some(m) = r {
        if m.start < bytes.len() {
            assert(bytes[m.start as int] < 128);
        }
    }
}

/// Over ASCII bytes, the first of a list of matches within the input
/// begins at a character start.
proof fn lemma_ascii_first_start(bytes: Seq<u8>, ms: Seq<Match>)
    requires
        ascii_bytes(bytes),
        ordered_matches(ms, bytes.len() as int),
    ensures
        ms.len() > 0 ==> char_start(bytes, ms[0].start as int),
{
    if ms.len() > 0 {
        assert(ms[0].start <= ms[0].end <= bytes.len());
        if ms[0].start < bytes.len() {
            assert(bytes[ms[0].start as int] < 128);
        }
    }
}

/// A position with no match, in valid UTF-8, extends the stretch without a
/// match up to the next position the search tries.
proof fn lemma_step_none_before(t: NodeTable, root: int, bytes: Seq<u8>, q: int)
    requires
        valid_utf8(bytes),
        0 <= q < bytes.len(),
        none_before(t, root, bytes, q),
        forall|e: int| q <= e <= bytes.len() ==> !#[trigger] matches_at(t, root, bytes, q, e),
    ensures
        none_before(t, root, bytes, step_from(q, bytes[q], bytes.len() as int)),
{
    if !is_continuation_byte(bytes[q]) {
        lemma_char_tail(bytes, q);
        assert forall|k: int| q < k < step_from(q, bytes[q], bytes.len() as int) implies !char_start(bytes, k) by {
            assert(is_continuation_byte(bytes[k]));
        }
    }
}

/// The empty match at `p` is a match exactly when the root is nullable
/// there.
proof fn lemma_empty_match(t: NodeTable, root: int, bytes: Seq<u8>, p: int, loc: LocationKind)
    requires
        table_wf(t),
        laws_apply(t, root),
        0 <= p <= bytes.len(),
    ensures
        matches_at(t, root, bytes, p, p) == nullable(t, loc, root),
{
    lemma_plain_nullable(t, loc, root);
    assert(byte_chars(bytes.subrange(p, p)) =~= Seq::<char>::empty());
}

/// What a search keeps: the regex stays well formed, its configuration
/// stays, and its table only grows.
pub open spec fn search_step(r0: Regex, r1: Regex) -> bool {
    &&& r1.wf()
    &&& r1.same_config(&r0)
    &&& table_extends(r0.table(), r1.table())
    &&& r0.state_count() <= r1.state_count()
}

/// A longest match stays one when the table grows.
proof fn lemma_longest_extend(t1: NodeTable, t2: NodeTable, root: int, bytes: Seq<u8>, m: Match)
    requires
        table_extends(t1, t2),
        0 <= root < t1.len(),
        longest_match(t1, root, bytes, m),
    ensures
        longest_match(t2, root, bytes, m),
{
    lemma_extend_all(t1, t2, root);
    assert forall|e2: int| m.end < e2 <= bytes.len() implies !#[trigger] matches_at(t2, root, bytes, m.start as int, e2) by {
        assert(!matches_at(t1, root, bytes, m.start as int, e2));
    }
}

/// A list of longest matches stays one when the table grows.
proof fn lemma_all_longest_extend(t1: NodeTable, t2: NodeTable, root: int, bytes: Seq<u8>, ms: Seq<Match>)
    requires
        table_extends(t1, t2),
        0 <= root < t1.len(),
        all_longest(t1, root, bytes, ms),
    ensures
        all_longest(t2, root, bytes, ms),
{
    lemma_extend_all(t1, t2, root);
    if laws_apply(t2, root) {
        assert forall|k: int| 0 <= k < ms.len() implies longest_match(t2, root, bytes, #[trigger] ms[k]) by {
            lemma_longest_extend(t1, t2, root, bytes, ms[k]);
        }
    }
}

impl Regex {
    /// The first match found by searching for the one-byte literal prefix.
    fn find_with_single_byte_prefix(&mut self, bytes: &[u8], needle: u8) -> (r: Option<Match>)
        requires
            old(self).wf(),
            old(self).prefix_accel == PrefixAccelerator::SingleByte(needle),
            laws_apply(old(self).table(), old(self).root_id()) ==> !old(self).nullable_at_start,
        ensures
            search_step(*old(self), *final(self)),
            final(self).state_count() <= old(self).state_count() + (bytes@.len() + 1) * (bytes@.len() + 1),
            found(final(self).table(), final(self).root_id(), bytes@, r),
            search_laws_apply(final(self).table(), final(self).root_id(), bytes@) ==> leftmost(
                final(self).table(),
                final(self).root_id(),
                bytes@,
                r,
            ),
            ascii_bytes(bytes@) && end_form(final(self).table(), final(self).root_id()) && final(self).table().len() < NODE_LIMIT ==> end_search_result(
                final(self).table(),
                final(self).root_id(),
                bytes@,
                r,
            ),
    {
        let n = bytes.len();
        let mut start: usize = 0;
        let ghost root = self.root as int;
        let ghost pre = seq![needle];
        loop
            invariant
                search_step(*old(self), *self),
                self.prefix_accel == PrefixAccelerator::SingleByte(needle),
                root == self.root,
                pre == seq![needle],
                laws_apply(old(self).table(), old(self).root_id()) ==> !old(self).nullable_at_start,
                n == bytes@.len(),
                start <= n,
                self.state_count() <= old(self).state_count() + start * (n + 1),
                search_laws_apply(self.table(), root, bytes@) ==> none_before(self.table(), root, bytes@, start as int),
                ascii_bytes(bytes@) && end_form(self.table(), root) && self.table().len() < NODE_LIMIT ==> no_end_match_before(
                    self.table(),
                    root,
                    bytes@,
                    start as int,
                ),
            ensures
                start <= n,
                self.state_count() <= old(self).state_count() + (n + 1) * (n + 1),
                search_laws_apply(self.table(), root, bytes@) ==> none_before(self.table(), root, bytes@, n + 1),
                ascii_bytes(bytes@) && end_form(self.table(), root) && self.table().len() < NODE_LIMIT ==> no_end_match_before(
                    self.table(),
                    root,
                    bytes@,
                    n as int,
                ),
            decreases n - start,
        {
            let ghost t1 = self.table();
            proof {
                assert(regex_inv(*self, t1));
                assert(prefix_bytes(self.prefix_accel) == pre);
            }
            let pos = match memchr_find(needle, &bytes[start..n]) {
                Some(p) => p,
                None => {
                    proof {
                        lemma_budget(start as int, n + 1, n as int);
                        if search_laws_apply(t1, root, bytes@) {
                            assert(prefix_bytes(self.prefix_accel) == pre);
                            assert forall|q: int| start <= q < n + 1 implies !#[trigger] occurs_at(bytes@, pre, q) by {
                                if q < n {
                                    assert(bytes@.subrange(start as int, n as int)[q - start] == bytes@[q]);
                                    if occurs_at(bytes@, pre, q) {
                                        assert(bytes@.subrange(q, q + 1)[0] == bytes@[q]);
                                    }
                                }
                            }
                            lemma_skip_prefix(t1, root, bytes@, pre, start as int, n + 1);
                        }
                        if ascii_bytes(bytes@) && end_form(t1, root) && t1.len() < NODE_LIMIT {
                            assert forall|q: int| start <= q < n implies #[trigger] bytes@[q] != needle by {
                                assert(bytes@.subrange(start as int, n as int)[q - start] == bytes@[q]);
                            }
                            lemma_end_single_byte_skip(t1, root, bytes@, needle, start as int, n as int);
                        }
                    }
                    break;
                },
            };
            let abs = start + pos;
            proof {
                assert(bytes@.subrange(start as int, n as int)[pos as int] == bytes@[abs as int]);
                assert(bytes@.subrange(abs as int, abs + 1) =~= seq![needle]);
                assert(prefix_bytes(self.prefix_accel) == seq![needle]);
                if search_laws_apply(t1, root, bytes@) {
                    assert forall|q: int| start <= q < abs implies !#[trigger] occurs_at(bytes@, pre, q) by {
                        assert(bytes@.subrange(start as int, n as int)[q - start] == bytes@[q]);
                        if occurs_at(bytes@, pre, q) {
                            assert(bytes@.subrange(q, q + 1)[0] == bytes@[q]);
                        }
                    }
                    lemma_skip_prefix(t1, root, bytes@, pre, start as int, abs as int);
                }
                if ascii_bytes(bytes@) && end_form(t1, root) && t1.len() < NODE_LIMIT {
                    assert forall|q: int| start <= q < abs implies #[trigger] bytes@[q] != needle by {
                        assert(bytes@.subrange(start as int, n as int)[q - start] == bytes@[q]);
                    }
                    lemma_end_single_byte_skip(t1, root, bytes@, needle, start as int, abs as int);
                }
            }
            let r = self.match_from_bytes_with_prefix(bytes, abs, 1);
            proof {
                lemma_budget(start as int, abs + 1, n as int);
                let t2 = self.table();
                if search_laws_apply(t2, root, bytes@) {
                    lemma_search_shrink(t1, t2, root, bytes@, abs as int);
                    if r is None {
                        assert forall|e: int| abs <= e <= bytes@.len() implies !#[trigger] matches_at(t2, root, bytes@, abs as int, e) by {
                            if e == abs {
                                lemma_no_empty_match(t2, root, bytes@, abs as int);
                            }
                        }
                    }
                }
                lemma_end_search_extend(t1, t2, root, bytes@, abs as int);
                if ascii_bytes(bytes@) && end_form(t2, root) && t2.len() < NODE_LIMIT {
                    lemma_ascii_char_start(bytes@, Some(Match { start: abs, end: abs }));
                    if r is None {
                        lemma_end_skip_one(t2, root, bytes@, abs as int);
                    }
                }
            }
            match r {
                Some(end) => {
                    let m = Match::new(abs, end);
                    return Some(m);
                },
                None => {},
            }
            start = abs + 1;
        }
        let ghost tf = self.table();
        proof {
            if end_form(tf, root) {
                lemma_end_nullable(tf, LocationKind::End, root);
                assert(byte_chars(bytes@.subrange(n as int, n as int)) =~= Seq::<char>::empty());
            }
        }
        if is_nullable(&self.builder, LocationKind::End, self.root) {
            proof {
                if laws_apply(tf, root) {
                    lemma_empty_match(tf, root, bytes@, n as int, LocationKind::End);
                }
                if search_laws_apply(tf, root, bytes@) {
                    lemma_empty_match(tf, root, bytes@, n as int, LocationKind::End);
                }
            }
            return Some(Match::new(n, n));
        }
        None
    }

    /// The first match found by searching for the literal prefix.
    fn find_with_literal_prefix(&mut self, bytes: &[u8], prefix: &[u8]) -> (r: Option<Match>)
        requires
            old(self).wf(),
            old(self).prefix_accel matches PrefixAccelerator::Literal(v) && v@ == prefix@,
            prefix@.len() >= 2,
        ensures
            search_step(*old(self), *final(self)),
            final(self).state_count() <= old(self).state_count() + (bytes@.len() + 1) * (bytes@.len() + 1),
            found(final(self).table(), final(self).root_id(), bytes@, r),
            search_laws_apply(final(self).table(), final(self).root_id(), bytes@) ==> leftmost(
                final(self).table(),
                final(self).root_id(),
                bytes@,
                r,
            ),
    {
        let n = bytes.len();
        let prefix_len = prefix.len();
        let mut start: usize = 0;
        let ghost root = self.root as int;
        let ghost t0 = self.table();
        proof {
            assert(accel_ok(t0, self.root, self.prefix_accel, self.prefix_end_state));
            assert(literal_prefix_of(t0, root, prefix@));
            lemma_literal_not_nullable(t0, root, prefix@);
        }
        loop
            invariant
                search_step(*old(self), *self),
                t0 == old(self).table(),
                literal_prefix_of(t0, root, prefix@),
                self.prefix_accel == old(self).prefix_accel,
                root == self.root,
                prefix_bytes(self.prefix_accel) == prefix@,
                prefix_len == prefix@.len(),
                prefix@.len() >= 2,
                !nullable(self.table(), LocationKind::Begin, root),
                n == bytes@.len(),
                start <= n,
                self.state_count() <= old(self).state_count() + start * (n + 1),
                search_laws_apply(self.table(), root, bytes@) ==> none_before(self.table(), root, bytes@, start as int),
            ensures
                start <= n,
                self.state_count() <= old(self).state_count() + (n + 1) * (n + 1),
                search_laws_apply(self.table(), root, bytes@) ==> none_before(self.table(), root, bytes@, n + 1),
            decreases n - start,
        {
            let ghost t1 = self.table();
            let pos = match memmem_find(&bytes[start..n], prefix) {
                Some(p) => p,
                None => {
                    proof {
                        lemma_budget(start as int, n + 1, n as int);
                        if search_laws_apply(t1, root, bytes@) {
                            assert forall|q: int| start <= q < n + 1 implies !#[trigger] occurs_at(bytes@, prefix@, q) by {
                                lemma_occurs_shift(bytes@, prefix@, start as int, q);
                            }
                            lemma_skip_prefix(t1, root, bytes@, prefix@, start as int, n + 1);
                        }
                    }
                    break;
                },
            };
            let abs = start + pos;
            proof {
                assert(bytes@.subrange(start as int, n as int).subrange(pos as int, pos + prefix_len)
                    =~= bytes@.subrange(abs as int, abs + prefix_len));
                if search_laws_apply(t1, root, bytes@) {
                    assert forall|q: int| start <= q < abs implies !#[trigger] occurs_at(bytes@, prefix@, q) by {
                        lemma_occurs_shift(bytes@, prefix@, start as int, q);
                    }
                    lemma_skip_prefix(t1, root, bytes@, prefix@, start as int, abs as int);
                }
            }
            let r = self.match_from_bytes_with_prefix(bytes, abs, prefix_len);
            proof {
                lemma_budget(start as int, abs + 1, n as int);
                let t2 = self.table();
                lemma_extend_nullable(t1, t2, LocationKind::Begin, root);
                if search_laws_apply(t2, root, bytes@) {
                    lemma_search_shrink(t1, t2, root, bytes@, abs as int);
                    if r is None {
                        lemma_literal_prefix_extend(t0, t2, root, prefix@);
                        assert forall|e: int| abs <= e <= bytes@.len() implies !#[trigger] matches_at(t2, root, bytes@, abs as int, e) by {
                            if matches_at(t2, root, bytes@, abs as int, e) {
                                lemma_prefix_long(t2, root, bytes@, prefix@, abs as int, e);
                            }
                        }
                    }
                }
            }
            match r {
                Some(end) => {
                    return Some(Match::new(abs, end));
                },
                None => {},
            }
            start = abs + 1;
        }
        let ghost tf = self.table();
        if is_nullable(&self.builder, LocationKind::End, self.root) {
            proof {
                if laws_apply(tf, root) {
                    lemma_empty_match(tf, root, bytes@, n as int, LocationKind::End);
                }
            }
            return Some(Match::new(n, n));
        }
        None
    }

    /// The first position at or after `start` holding one of the start
    /// bytes (of which there are one to three).
    fn next_start_byte(bytes: &[u8], start: usize, start_bytes: &[u8]) -> (r: Option<usize>)
        requires
            start <= bytes@.len(),
        ensures
            r matches Some(p) ==> p < bytes@.len() - start && start_bytes@.contains(bytes@[start + p]),
            1 <= start_bytes@.len() <= 3 ==> forall|j: int|
                0 <= j < (match r {
                    Some(p) => p as int,
                    None => bytes@.len() - start,
                }) ==> !start_bytes@.contains(#[trigger] bytes@[start + j]),
    {
        let n = bytes.len();
        let ghost h = bytes@.subrange(start as int, n as int);
        let r = if start_bytes.len() == 1 {
            memchr_find(start_bytes[0], &bytes[start..n])
        } else if start_bytes.len() == 2 {
            memchr2_find(start_bytes[0], start_bytes[1], &bytes[start..n])
        } else if start_bytes.len() == 3 {
            memchr3_find(start_bytes[0], start_bytes[1], start_bytes[2], &bytes[start..n])
        } else {
            None
        };
        proof {
            let sb = start_bytes@;
            if let Some(p) = r {
                assert(h[p as int] == bytes@[start + p]);
                if sb.len() == 1 {
                    assert(sb[0] == bytes@[start + p]);
                } else if sb.len() == 2 {
                    assert(sb[0] == bytes@[start + p] || sb[1] == bytes@[start + p]);
                } else {
                    assert(sb[0] == bytes@[start + p] || sb[1] == bytes@[start + p] || sb[2] == bytes@[start + p]);
                }
            }
            if 1 <= sb.len() <= 3 {
                let lim = match r {
                    Some(p) => p as int,
                    None => bytes@.len() - start,
                };
                assert forall|j: int| 0 <= j < lim implies !sb.contains(#[trigger] bytes@[start + j]) by {
                    assert(h[j] == bytes@[start + j]);
                    if sb.contains(bytes@[start + j]) {
                        let k = choose|k: int| 0 <= k < sb.len() && sb[k] == bytes@[start + j];
                        assert(k == 0 || k == 1 || k == 2);
                    }
                }
            }
        }
        r
    }

    /// The first match found by searching for the start bytes.
    #[verifier::rlimit(40)]
    fn find_with_startset(&mut self, bytes: &[u8], start_bytes: &[u8]) -> (r: Option<Match>)
        requires
            old(self).wf(),
            old(self).prefix_accel matches PrefixAccelerator::StartBytes(v) && v@ == start_bytes@,
        ensures
            search_step(*old(self), *final(self)),
            final(self).state_count() <= old(self).state_count() + (bytes@.len() + 1) * (bytes@.len() + 1),
            found(final(self).table(), final(self).root_id(), bytes@, r),
            search_laws_apply(final(self).table(), final(self).root_id(), bytes@) ==> leftmost(
                final(self).table(),
                final(self).root_id(),
                bytes@,
                r,
            ),
            ascii_bytes(bytes@) && end_form(final(self).table(), final(self).root_id()) && final(self).table().len() < NODE_LIMIT ==> end_search_result(
                final(self).table(),
                final(self).root_id(),
                bytes@,
                r,
            ),
            ascii_bytes(bytes@) && begin_form(final(self).table(), final(self).root_id()) && final(self).table().len()
                < NODE_LIMIT ==> begin_search_result(final(self).table(), final(self).root_id(), bytes@, r),
    {
        let n = bytes.len();
        let mut start: usize = 0;
        let ghost root = self.root as int;
        let ghost t0 = self.table();
        let ghost p = t0[root]->tail as int;
        proof {
            assert(accel_ok(t0, self.root, self.prefix_accel, self.prefix_end_state));
        }
        while start < n
            invariant
                search_step(*old(self), *self),
                t0 == old(self).table(),
                root == self.root,
                root < t0.len(),
                accel_ok(t0, self.root, self.prefix_accel, self.prefix_end_state),
                table_wf(t0),
                self.prefix_accel matches PrefixAccelerator::StartBytes(v) && v@ == start_bytes@,
                n == bytes@.len(),
                start <= n,
                self.state_count() <= old(self).state_count() + start * (n + 1),
                start * (n + 1) <= (n + 1) * (n + 1),
                search_laws_apply(self.table(), root, bytes@) ==> none_before(self.table(), root, bytes@, start as int),
                ascii_bytes(bytes@) && end_form(self.table(), root) && self.table().len() < NODE_LIMIT ==> no_end_match_before(
                    self.table(),
                    root,
                    bytes@,
                    start as int,
                ),
                p == t0[root]->tail,
                ascii_bytes(bytes@) && begin_form(self.table(), root) && self.table().len() < NODE_LIMIT && start > 0
                    ==> no_prefix_match(self.table(), p, bytes@),
            ensures
                start <= n,
                self.state_count() <= old(self).state_count() + (n + 1) * (n + 1),
                search_laws_apply(self.table(), root, bytes@) ==> none_before(self.table(), root, bytes@, n as int),
                ascii_bytes(bytes@) && end_form(self.table(), root) && self.table().len() < NODE_LIMIT ==> no_end_match_before(
                    self.table(),
                    root,
                    bytes@,
                    n as int,
                ),
                ascii_bytes(bytes@) && begin_form(self.table(), root) && self.table().len() < NODE_LIMIT && n > 0
                    ==> no_prefix_match(self.table(), p, bytes@),
            decreases n - start,
        {
            let ghost t1 = self.table();
            proof {
                lemma_accel_extend(t0, t1, self.root, self.prefix_accel, self.prefix_end_state);
            }
            let pos = match Self::next_start_byte(bytes, start, start_bytes) {
                Some(rel_pos) => rel_pos,
                None => {
                    proof {
                        lemma_budget(start as int, n + 1, n as int);
                        if search_laws_apply(t1, root, bytes@) {
                            lemma_skip_non_start_bytes(t1, root, bytes@, start_bytes@, start as int, n as int);
                        }
                        if ascii_bytes(bytes@) && end_form(t1, root) && t1.len() < NODE_LIMIT {
                            lemma_end_skip_non_start_bytes(t1, root, bytes@, start_bytes@, start as int, n as int);
                        }
                        if ascii_bytes(bytes@) && begin_form(t1, root) && t1.len() < NODE_LIMIT && start == 0 {
                            lemma_begin_extend(t0, t1, root, bytes@);
                            assert(!start_bytes@.contains(bytes@[start + 0]));
                            assert(bytes@[0] < 128);
                            if bit_of(first_bytes(t1, root), bytes@[0] as u32) {
                                assert(start_bytes@.contains((bytes@[0] as u32 as int) as u8));
                            }
                            lemma_begin_skip_zero(t1, root, bytes@);
                        }
                    }
                    break;
                },
            };
            let abs_pos = start + pos;
            proof {
                if search_laws_apply(t1, root, bytes@) {
                    lemma_skip_non_start_bytes(t1, root, bytes@, start_bytes@, start as int, abs_pos as int);
                }
                if ascii_bytes(bytes@) && end_form(t1, root) && t1.len() < NODE_LIMIT {
                    lemma_end_skip_non_start_bytes(t1, root, bytes@, start_bytes@, start as int, abs_pos as int);
                }
                if ascii_bytes(bytes@) && begin_form(t1, root) && t1.len() < NODE_LIMIT && start == 0 && abs_pos > 0 {
                    lemma_begin_extend(t0, t1, root, bytes@);
                    assert(!start_bytes@.contains(bytes@[start + 0]));
                    assert(bytes@[0] < 128);
                    if bit_of(first_bytes(t1, root), bytes@[0] as u32) {
                        assert(start_bytes@.contains((bytes@[0] as u32 as int) as u8));
                    }
                    lemma_begin_skip_zero(t1, root, bytes@);
                }
            }
            let ghost s0 = start;
            let r = self.match_from_bytes(bytes, abs_pos);
            proof {
                lemma_budget(start as int, abs_pos + 1, n as int);
                let t2 = self.table();
                lemma_end_search_extend(t1, t2, root, bytes@, abs_pos as int);
                reveal(end_root_result);
                lemma_begin_extend(t0, t1, root, bytes@);
                lemma_begin_extend(t1, t2, root, bytes@);
                reveal(begin_form_result);
                if ascii_bytes(bytes@) {
                    lemma_ascii_char_start(bytes@, Some(Match { start: abs_pos, end: abs_pos }));
                }
                if search_laws_apply(t2, root, bytes@) {
                    lemma_search_shrink(t1, t2, root, bytes@, abs_pos as int);
                }
            }
            match r {
                Some(end) => {
                    return Some(Match::new(abs_pos, end));
                },
                None => {},
            }
            proof {
                let t2 = self.table();
                if search_laws_apply(t2, root, bytes@) {
                    assert(bytes@[abs_pos as int] < 128);
                    lemma_skip_one(t2, root, bytes@, abs_pos as int);
                }
                if ascii_bytes(bytes@) {
                    assert(bytes@[abs_pos as int] < 128);
                }
            }
            start = next_char_start(abs_pos, bytes[abs_pos], n);
            proof {
                lemma_budget(s0 as int, start as int, n as int);
            }
        }
        let ghost tf = self.table();
        proof {
            lemma_begin_extend(t0, tf, root, bytes@);
            if begin_form(tf, root) {
                assert(node_ok(tf[root], root));
                assert(!nullable(tf, LocationKind::End, tf[root]->head as int));
                if n == 0 && tf.len() < NODE_LIMIT {
                    lemma_accel_extend(t0, tf, self.root, self.prefix_accel, self.prefix_end_state);
                    lemma_plain_nullable(tf, LocationKind::Begin, p);
                    assert(nullable(tf, LocationKind::Begin, tf[root]->head as int));
                    assert(bytes@.subrange(0, 0) =~= Seq::<u8>::empty());
                    assert(byte_chars(Seq::<u8>::empty()) =~= Seq::<char>::empty());
                }
            }
            if end_form(tf, root) {
                lemma_end_nullable(tf, LocationKind::End, root);
                assert(byte_chars(bytes@.subrange(n as int, n as int)) =~= Seq::<char>::empty());
            }
        }
        if is_nullable(&self.builder, LocationKind::End, self.root) {
            proof {
                if laws_apply(tf, root) {
                    lemma_empty_match(tf, root, bytes@, n as int, LocationKind::End);
                }
            }
            return Some(Match::new(n, n));
        }
        proof {
            if search_laws_apply(tf, root, bytes@) {
                lemma_extend_nullable(t0, tf, LocationKind::Begin, root);
                lemma_no_empty_match(tf, root, bytes@, n as int);
            }
        }
        None
    }

    /// A match in `input` that no match from the same start outlasts; no
    /// match once more DFA states have been built than the state limit
    /// allows. For a pattern without anchors or lookarounds it is the
    /// leftmost-longest match, or `None` where there is none, where matches
    /// start at character starts and each byte is read as the character of
    /// its value. A root that is the `^` anchor gives the empty match at the
    /// start; the `$` anchor, over ASCII input, the empty match at the end.
    /// The search builds at most `search_budget` new states.
    pub fn find(&mut self, input: &str) -> (r: Option<Match>)
        requires
            old(self).wf(),
        ensures
            search_step(*old(self), *final(self)),
            final(self).state_count() <= old(self).state_count() + search_budget(input.spec_bytes().len() as int),
            final(self).state_count() > final(self).state_limit() ==> r is None,
            found(final(self).table(), final(self).root_id(), input.spec_bytes(), r),
            r matches Some(m) ==> char_start(input.spec_bytes(), m.start as int),
            old(self).table()[old(self).root_id()] is Begin && final(self).state_count() <= final(self).state_limit()
                ==> r == Some(Match { start: 0, end: 0 }),
            old(self).root_id() == node_id::END_ANCHOR && ascii_bytes(input.spec_bytes()) && final(self).state_count()
                <= final(self).state_limit() ==> r == Some(
                Match { start: input.spec_bytes().len() as usize, end: input.spec_bytes().len() as usize },
            ),
            final(self).state_count() <= final(self).state_limit() && laws_apply(
                final(self).table(),
                final(self).root_id(),
            ) ==> leftmost(final(self).table(), final(self).root_id(), input.spec_bytes(), r),
            input.spec_bytes().len() == 0 && final(self).state_count() <= final(self).state_limit() ==> r == (if nullable(
                final(self).table(),
                LocationKind::BeginEnd,
                final(self).root_id(),
            ) {
                Some(Match { start: 0, end: 0 })
            } else {
                None
            }),
            final(self).state_count() <= final(self).state_limit() && end_form(final(self).table(), final(self).root_id())
                && final(self).table().len() < NODE_LIMIT ==> end_search_result(
                final(self).table(),
                final(self).root_id(),
                input.spec_bytes(),
                r,
            ),
            final(self).state_count() <= final(self).state_limit() && begin_form(
                final(self).table(),
                final(self).root_id(),
            ) && final(self).table().len() < NODE_LIMIT ==> begin_search_result(
                final(self).table(),
                final(self).root_id(),
                input.spec_bytes(),
                r,
            ),
    {
        let r = self.search_first(input);
        if self.over_state_limit() {
            None
        } else {
            r
        }
    }

    /// Whether more DFA states have been built than the limit allows.
    fn over_state_limit(&self) -> (r: bool)
        ensures
            r == (self.state_count() > self.state_limit()),
    {
        self.state_count > self.state_limit as u64
    }

    /// The DFA has been precomputed into a flat table.
    pub closed spec fn has_precomputed_dfa(&self) -> bool {
        self.precomputed_dfa is Some
    }

    /// More states are reachable from the root, through the transitions
    /// computed so far, than the precomputed table takes.
    pub closed spec fn too_many_states_to_precompute(&self) -> bool {
        exists|st: Seq<RegexNodeId>| #[trigger]
            discovered(self.transitions@, self.root, st) && st.len() > DEFAULT_PRECOMPUTE_LIMIT
    }

    /// How many DFA states have had their transitions built (counting stops
    /// at `u64::MAX`).
    pub closed spec fn state_count(&self) -> nat {
        self.state_count as nat
    }

    /// The leftmost-longest match in `input`, if any, whatever the number of
    /// states built.
    fn search_first(&mut self, input: &str) -> (r: Option<Match>)
        requires
            old(self).wf(),
        ensures
            search_step(*old(self), *final(self)),
            final(self).state_count() <= old(self).state_count() + search_budget(input.spec_bytes().len() as int),
            found(final(self).table(), final(self).root_id(), input.spec_bytes(), r),
            laws_apply(final(self).table(), final(self).root_id()) ==> leftmost(
                final(self).table(),
                final(self).root_id(),
                input.spec_bytes(),
                r,
            ),
            r matches Some(m) ==> char_start(input.spec_bytes(), m.start as int),
            old(self).table()[old(self).root_id()] is Begin ==> r == Some(Match { start: 0, end: 0 }),
            old(self).root_id() == node_id::END_ANCHOR && ascii_bytes(input.spec_bytes()) ==> r == Some(
                Match { start: input.spec_bytes().len() as usize, end: input.spec_bytes().len() as usize },
            ),
            input.spec_bytes().len() == 0 ==> r == (if nullable(
                final(self).table(),
                LocationKind::BeginEnd,
                final(self).root_id(),
            ) {
                Some(Match { start: 0, end: 0 })
            } else {
                None
            }),
            end_form(final(self).table(), final(self).root_id()) && final(self).table().len() < NODE_LIMIT ==> end_search_result(
                final(self).table(),
                final(self).root_id(),
                input.spec_bytes(),
                r,
            ),
            begin_form(final(self).table(), final(self).root_id()) && final(self).table().len() < NODE_LIMIT
                ==> begin_search_result(final(self).table(), final(self).root_id(), input.spec_bytes(), r),
    {
        let bytes = input.as_bytes();
        let n = bytes.len();
        let ghost root = self.root as int;
        let ghost t0 = self.table();
        let ghost p = t0[root]->tail as int;
        proof {
            vstd::utf8::encode_utf8_valid_utf8(input@);
            if n > 0 {
                lemma_first_char_start(bytes@);
            }
        }
        if n == 0 {
            let nullable_here = is_nullable(&self.builder, LocationKind::BeginEnd, self.root);
            proof {
                if laws_apply(self.table(), root) {
                    lemma_empty_match(self.table(), root, bytes@, 0, LocationKind::BeginEnd);
                }
                if end_form(t0, root) {
                    lemma_end_nullable(t0, LocationKind::BeginEnd, root);
                    assert(byte_chars(bytes@.subrange(0, 0)) =~= Seq::<char>::empty());
                }
                if begin_form(t0, root) {
                    assert(node_ok(t0[root], root));
                    lemma_plain_nullable(t0, LocationKind::BeginEnd, p);
                    assert(nullable(t0, LocationKind::BeginEnd, t0[root]->head as int));
                    assert(bytes@.subrange(0, 0) =~= Seq::<u8>::empty());
                    assert(byte_chars(Seq::<u8>::empty()) =~= Seq::<char>::empty());
                }
            }
            if nullable_here {
                return Some(Match::new(0, 0));
            }
            return None;
        }
        proof {
            lemma_budget(0, 1, n as int);
        }
        proof {
            assert(regex_inv(*self, self.table()));
            if end_form(t0, root) {
                lemma_end_nullable(t0, LocationKind::Begin, root);
            }
        }
        if self.nullable_at_start {
            proof {
                assert(self.table()[root] == t0[root]);
            }
            let r0 = self.match_from_bytes(bytes, 0);
            proof {
                reveal(begin_root_result);
                let t1 = self.table();
                lemma_end_extend(t0, t1, root);
                lemma_begin_extend(t0, t1, root, bytes@);
                reveal(begin_form_result);
                if laws_apply(t1, root) {
                    lemma_extend_nullable(t0, t1, LocationKind::Begin, root);
                    lemma_empty_match(t1, root, bytes@, 0, LocationKind::Begin);
                }
            }
            match r0 {
                Some(end) => {
                    return Some(Match::new(0, end));
                },
                None => {},
            }
        }
        proof {
            if root == node_id::END_ANCHOR as int {
                assert(self.table()[root] is End);
                if self.prefix_accel is StartBytes {
                    let v = self.prefix_accel->StartBytes_0;
                    assert(bit_of(first_bytes(self.table(), root), v@[0] as u32));
                    lemma_bits(0u128, 0u128, v@[0] as u32, v@[0] as u32);
                }
                assert(self.prefix_accel is Plain);
            }
        }
        if all_ascii(bytes) {
            match &self.prefix_accel {
                PrefixAccelerator::SingleByte(b) => {
                    let b = *b;
                    let ghost ts = self.table();
                    proof {
                        assert(regex_inv(*self, ts));
                        assert(prefix_bytes(self.prefix_accel) == seq![b]);
                        lemma_begin_no_prefix(ts, root, seq![b]);
                    }
                    let r = self.find_with_single_byte_prefix(bytes, b);
                    proof {
                        lemma_ascii_char_start(bytes@, r);
                        lemma_begin_extend(ts, self.table(), root, bytes@);
                    }
                    return r;
                },
                PrefixAccelerator::Literal(prefix) => {
                    if prefix.len() >= 2 {
                        let prefix = copy_bytes(prefix);
                        let ghost tl = self.table();
                        proof {
                            assert(regex_inv(*self, tl));
                            lemma_end_no_long_prefix(tl, root, prefix@);
                            lemma_begin_no_prefix(tl, root, prefix@);
                        }
                        let r = self.find_with_literal_prefix(bytes, prefix.as_slice());
                        proof {
                            lemma_ascii_char_start(bytes@, r);
                            lemma_end_extend(tl, self.table(), root);
                            lemma_begin_extend(tl, self.table(), root, bytes@);
                        }
                        return r;
                    }
                },
                PrefixAccelerator::StartBytes(start_bytes) => {
                    let start_bytes = copy_bytes(start_bytes);
                    let r = self.find_with_startset(bytes, start_bytes.as_slice());
                    proof {
                        lemma_ascii_char_start(bytes@, r);
                    }
                    return r;
                },
                _ => {},
            }
        }
        let mut start: usize = 0;
        let ghost t1 = self.table();
        proof {
            lemma_begin_extend(t0, t1, root, bytes@);
        }
        while start < n
            invariant
                search_step(*old(self), *self),
                root == self.root,
                laws_apply(t1, root) ==> !self.nullable_at_start,
                table_extends(t1, self.table()),
                root < t1.len(),
                n == bytes@.len(),
                bytes@ == input.spec_bytes(),
                valid_utf8(bytes@),
                start <= n,
                char_start(bytes@, start as int),
                !(old(self).table()[root] is Begin),
                root == node_id::END_ANCHOR as int && ascii_bytes(bytes@) ==> self.startset == 0u128,
                self.state_count() <= old(self).state_count() + n + start * (n + 1),
                n + start * (n + 1) <= search_budget(n as int),
                laws_apply(self.table(), root) ==> none_before(self.table(), root, bytes@, start as int),
                end_form(self.table(), root) && self.table().len() < NODE_LIMIT ==> no_end_match_before(
                    self.table(),
                    root,
                    bytes@,
                    start as int,
                ),
                p == t1[root]->tail,
                n > 0,
                begin_form(self.table(), root) && self.table().len() < NODE_LIMIT && (start > 0 || self.nullable_at_start)
                    ==> no_prefix_match(self.table(), p, bytes@),
            ensures
                laws_apply(self.table(), root) ==> none_before(self.table(), root, bytes@, n as int),
                end_form(self.table(), root) && self.table().len() < NODE_LIMIT ==> no_end_match_before(
                    self.table(),
                    root,
                    bytes@,
                    n as int,
                ),
                begin_form(self.table(), root) && self.table().len() < NODE_LIMIT ==> no_prefix_match(self.table(), p, bytes@),
            decreases n - start,
        {
            let ghost t2 = self.table();
            let ghost s0 = start;
            let b = bytes[start];
            proof {
                if root == node_id::END_ANCHOR as int && ascii_bytes(bytes@) {
                    assert(bytes@[start as int] < 128);
                    lemma_bits(0u128, 0u128, b as u32, b as u32);
                }
            }
            if b < 128 && (self.startset & (1u128 << b)) == 0 {
                proof {
                    if laws_apply(t2, root) {
                        lemma_extend_all(t1, t2, root);
                        lemma_bits(self.startset, 0, b as u32, b as u32);
                        assert(regex_inv(*self, t2));
                        lemma_start_byte_excluded(t2, root, bytes@, start as int);
                        lemma_skip_one(t2, root, bytes@, start as int);
                    }
                    if begin_form(t2, root) && t2.len() < NODE_LIMIT && start == 0 && !self.nullable_at_start {
                        assert(regex_inv(*self, t2));
                        lemma_bits(self.startset, 0, b as u32, b as u32);
                        lemma_begin_skip_zero(t2, root, bytes@);
                    }
                    if end_form(t2, root) && t2.len() < NODE_LIMIT {
                        assert(regex_inv(*self, t2));
                        lemma_bits(self.startset, 0, b as u32, b as u32);
                        lemma_end_start_byte_excluded(t2, root, bytes@, start as int);
                        lemma_end_skip_one(t2, root, bytes@, start as int);
                    }
                }
                start = start + 1;
                proof {
                    lemma_budget(s0 as int, start as int, n as int);
                    lemma_next_char_start(bytes@, s0 as int);
                }
                continue;
            }
            let r = self.match_from_bytes(bytes, start);
            proof {
                lemma_budget(start as int, start + 1, n as int);
                let t3 = self.table();
                if laws_apply(t3, root) {
                    lemma_search_shrink(t2, t3, root, bytes@, start as int);
                }
                lemma_end_search_extend(t2, t3, root, bytes@, start as int);
                reveal(end_root_result);
                lemma_begin_extend(t2, t3, root, bytes@);
                reveal(begin_form_result);
            }
            match r {
                Some(end) => {
                    return Some(Match::new(start, end));
                },
                None => {},
            }
            proof {
                let t3 = self.table();
                if laws_apply(t3, root) {
                    lemma_step_none_before(t3, root, bytes@, start as int);
                }
                if end_form(t3, root) && t3.len() < NODE_LIMIT {
                    lemma_end_none_step(t3, root, bytes@, start as int);
                }
            }
            start = next_char_start(start, b, n);
            proof {
                lemma_budget(s0 as int, start as int, n as int);
                lemma_next_char_start(bytes@, s0 as int);
            }
        }
        let ghost tf = self.table();
        proof {
            if begin_form(tf, root) {
                assert(node_ok(tf[root], root));
                assert(!nullable(tf, LocationKind::End, tf[root]->head as int));
            }
            if end_form(tf, root) {
                lemma_end_nullable(tf, LocationKind::End, root);
                assert(byte_chars(bytes@.subrange(n as int, n as int)) =~= Seq::<char>::empty());
            }
        }
        if is_nullable(&self.builder, LocationKind::End, self.root) {
            proof {
                if laws_apply(tf, root) {
                    lemma_empty_match(tf, root, bytes@, n as int, LocationKind::End);
                }
            }
            return Some(Match::new(n, n));
        }
        proof {
            if laws_apply(tf, root) {
                lemma_extend_all(t1, tf, root);
                lemma_no_empty_match(tf, root, bytes@, n as int);
            }
        }
        None
    }

    /// Whether the pattern matches anywhere in `input`.
    pub fn is_match(&mut self, input: &str) -> (r: bool)
        requires
            old(self).wf(),
        ensures
            search_step(*old(self), *final(self)),
            final(self).state_count() <= old(self).state_count() + search_budget(input.spec_bytes().len() as int),
            r && laws_apply(final(self).table(), final(self).root_id()) ==> exists|i: int, j: int|
                0 <= i <= j <= input.spec_bytes().len() && #[trigger] matches_at(
                    final(self).table(),
                    final(self).root_id(),
                    input.spec_bytes(),
                    i,
                    j,
                ),
            final(self).state_count() > final(self).state_limit() ==> !r,
            !r && final(self).state_count() <= final(self).state_limit() && laws_apply(
                final(self).table(),
                final(self).root_id(),
            ) ==> none_before(final(self).table(), final(self).root_id(), input.spec_bytes(), input.spec_bytes().len() as int + 1),
            final(self).state_count() <= final(self).state_limit() && end_form(final(self).table(), final(self).root_id())
                && final(self).table().len() < NODE_LIMIT ==> r == exists|q: int|
                0 <= q <= input.spec_bytes().len() && char_start(input.spec_bytes(), q) && #[trigger] end_accepts(
                    final(self).table(),
                    final(self).root_id(),
                    byte_chars(input.spec_bytes().subrange(q, input.spec_bytes().len() as int)),
                ),
            final(self).state_count() <= final(self).state_limit() && begin_form(
                final(self).table(),
                final(self).root_id(),
            ) && final(self).table().len() < NODE_LIMIT ==> r == !no_prefix_match(
                final(self).table(),
                final(self).table()[final(self).root_id()]->tail as int,
                input.spec_bytes(),
            ),
    {
        let m = self.find(input);
        proof {
            if let Some(mm) = m {
                if laws_apply(self.table(), self.root as int) {
                    assert(matches_at(self.table(), self.root as int, input.spec_bytes(), mm.start as int, mm.end as int));
                }
                if self.state_count() <= self.state_limit() && end_form(self.table(), self.root as int) && self.table().len()
                    < NODE_LIMIT {
                    let b = input.spec_bytes();
                    assert(end_accepts(self.table(), self.root as int, byte_chars(b.subrange(mm.start as int, b.len() as int))));
                }
                if self.state_count() <= self.state_limit() && begin_form(self.table(), self.root as int)
                    && self.table().len() < NODE_LIMIT {
                    assert(matches_at(
                        self.table(),
                        self.table()[self.root as int]->tail as int,
                        input.spec_bytes(),
                        0,
                        mm.end as int,
                    ));
                }
            }
        }
        m.is_some()
    }

    /// Compiles `pattern`: parses it, computes the start set and the
    /// literal prefix, and precomputes the DFA up to its state limit.
    pub fn new(pattern: &str) -> (r: Result<Self>)
        ensures
            r matches Ok(re) ==> re.wf() && re.state_limit() == 10000,
            r matches Ok(re) ==> re.has_precomputed_dfa() || re.too_many_states_to_precompute(),
            r matches Ok(re) ==> (re.root_id() != 0 ==> re.state_count() >= 1),
            r matches Ok(re) ==> re.state_count() <= 1024,
            lone_fixed_atom(pattern@, 0) matches Some(id) ==> (r matches Ok(re) && re.root_id() == id),
            r matches Err(e) ==> e matches Error::Parse(pe) && pe.position <= pattern@.len(),
            match pattern_scan(pattern@) {
                Ok(_) => r is Ok,
                Err((p, m)) => r matches Err(e) && e matches Error::Parse(pe) && pe.position == p && pe.message@ == m,
            },
            r matches Ok(re) ==> (re.table().len() < NODE_LIMIT ==> node_means(
                re.table(),
                re.root_id(),
                pattern_lang(pattern@),
            )),
            r matches Ok(re) ==> (re.table().len() < NODE_LIMIT && pattern_lang(pattern@) is Some && no_complement(
                pattern@,
                0,
                pattern@.len() as int,
            ) ==> complement_free(re.table(), re.root_id())),
    {
        let parser = Parser::new(pattern);
        let (root, mut builder) = match parser.parse() {
            Ok(parsed) => parsed,
            Err(e) => {
                return Err(Error::Parse(e));
            },
        };
        let ghost tp = builder.table();
        let startset = compute_startset(&builder, root);
        let nullable_at_start = is_nullable(&builder, LocationKind::Begin, root);
        let ghost t0 = builder.table();
        let (prefix_accel, prefix_end_state) = compute_prefix_acceleration(&mut builder, root);
        let mut regex = Regex {
            builder,
            root,
            transitions: id_map_new(),
            state_count: 0,
            nullable_cache: id_map_new(),
            startset,
            nullable_at_start,
            state_limit: DEFAULT_STATE_LIMIT,
            prefix_accel,
            prefix_end_state,
            precomputed_dfa: None,
        };
        proof {
            lemma_extend_nullable(t0, regex.table(), LocationKind::Begin, root as int);
            lemma_first_bytes_extend(t0, regex.table(), root as int);
            assert(regex.transitions@.dom() =~= Set::<RegexNodeId>::empty());
            reveal(trans_ok);
            assert(regex_inv(regex, regex.table()));
        }
        let done = regex.precompute_dfa_internal(DEFAULT_PRECOMPUTE_LIMIT);
        proof {
            lemma_precomputed_counts(regex, done);
            assert(regex.state_count <= regex.transitions@.dom().len());
        }
        proof {
            if regex.table().len() < NODE_LIMIT {
                lemma_means_extend(tp, regex.table(), root as int, pattern_lang(pattern@));
                lemma_complement_free_extend(tp, regex.table(), root as int);
            }
        }
        Ok(regex)
    }

    /// The regex with another limit on the number of DFA states: once more
    /// states have been built, every search fails.
    pub fn with_state_limit(self, limit: usize) -> (r: Self)
        requires
            self.wf(),
        ensures
            r.wf(),
            r.table() == self.table(),
            r.root_id() == self.root_id(),
            r.state_limit() == limit,
            r.state_count() == self.state_count(),
    {
        let mut re = self;
        re.state_limit = limit;
        re
    }

    /// The limit on the number of DFA states.
    pub closed spec fn state_limit(&self) -> usize {
        self.state_limit
    }

    /// All matches found by searching for the one-byte literal prefix.
    #[verifier::rlimit(100)]
    #[verifier::spinoff_prover]
    fn find_all_with_single_byte_prefix(&mut self, bytes: &[u8], needle: u8) -> (r: Vec<Match>)
        requires
            old(self).wf(),
            old(self).prefix_accel == PrefixAccelerator::SingleByte(needle),
        ensures
            search_step(*old(self), *final(self)),
            final(self).state_count() <= old(self).state_count() + (bytes@.len() + 1) * (bytes@.len() + 1),
            ordered_matches(r@, bytes@.len() as int),
            all_longest(final(self).table(), final(self).root_id(), bytes@, r@),
            bytes@.len() > 0 ==> end_match_iff_nullable(final(self).table(), final(self).root_id(), bytes@.len() as int, r@),
            search_laws_apply(final(self).table(), final(self).root_id(), bytes@) ==> each_leftmost(
                final(self).table(),
                final(self).root_id(),
                bytes@,
                r@,
            ),
            ascii_bytes(bytes@) && end_form(final(self).table(), final(self).root_id()) && final(self).table().len()
                < NODE_LIMIT ==> end_matches_upto(final(self).table(), final(self).root_id(), bytes@, r@, bytes@.len() as int + 1),
    {
        let n = bytes.len();
        let mut matches: Vec<Match> = Vec::new();
        let mut start: usize = 0;
        let ghost root = self.root as int;
        let ghost pre = seq![needle];
        loop
            invariant
                search_step(*old(self), *self),
                self.prefix_accel == PrefixAccelerator::SingleByte(needle),
                root == self.root,
                pre == seq![needle],
                n == bytes@.len(),
                start <= n,
                self.state_count() <= old(self).state_count() + start * (n + 1),
                start * (n + 1) <= (n + 1) * (n + 1),
                ordered_matches(matches@, n as int),
                matches@.len() > 0 ==> matches@.last().end <= start,
                resume_at(matches@, matches@.len() as int) <= start,
                forall|k: int| 0 <= k < matches@.len() ==> #[trigger] matches@[k].start < n,
                all_longest(self.table(), self.root as int, bytes@, matches@),
                search_laws_apply(self.table(), root, bytes@) ==> gaps_ok(self.table(), root, bytes@, matches@, start as int),
                ascii_bytes(bytes@) && end_form(self.table(), root) && self.table().len() < NODE_LIMIT ==> end_matches_upto(
                    self.table(),
                    root,
                    bytes@,
                    matches@,
                    start as int,
                ),
            ensures
                search_laws_apply(self.table(), root, bytes@) ==> gaps_ok(self.table(), root, bytes@, matches@, n as int),
                ascii_bytes(bytes@) && end_form(self.table(), root) && self.table().len() < NODE_LIMIT ==> end_matches_upto(
                    self.table(),
                    root,
                    bytes@,
                    matches@,
                    n as int,
                ),
            decreases n - start,
        {
            let ghost s0 = start;
            let ghost t1 = self.table();
            proof {
                assert(prefix_bytes(self.prefix_accel) == pre);
                lemma_literal_not_nullable(t1, root, pre);
                assert(regex_inv(*self, t1));
            }
            let pos = match memchr_find(needle, &bytes[start..n]) {
                Some(p) => p,
                None => {
                    proof {
                        if search_laws_apply(t1, root, bytes@) {
                            assert forall|q: int| start <= q < n implies !#[trigger] occurs_at(bytes@, pre, q) by {
                                assert(bytes@.subrange(start as int, n as int)[q - start] == bytes@[q]);
                                if occurs_at(bytes@, pre, q) {
                                    assert(bytes@.subrange(q, q + 1)[0] == bytes@[q]);
                                }
                            }
                            lemma_prefix_gap(t1, root, bytes@, pre, start as int, n as int);
                            lemma_gap_grow(t1, root, bytes@, matches@, start as int, n as int);
                        }
                        if ascii_bytes(bytes@) && end_form(t1, root) && t1.len() < NODE_LIMIT {
                            assert forall|q: int| start <= q < n implies #[trigger] bytes@[q] != needle by {
                                assert(bytes@.subrange(start as int, n as int)[q - start] == bytes@[q]);
                            }
                            lemma_end_single_byte_gap(t1, root, bytes@, needle, start as int, n as int);
                            lemma_end_gap_join(t1, root, bytes@, matches@, start as int, n as int);
                        }
                    }
                    break;
                },
            };
            let abs_pos = start + pos;
            proof {
                assert(bytes@.subrange(start as int, n as int)[pos as int] == bytes@[abs_pos as int]);
                assert(bytes@.subrange(abs_pos as int, abs_pos + 1) =~= seq![needle]);
                if search_laws_apply(t1, root, bytes@) {
                    assert forall|q: int| start <= q < abs_pos implies !#[trigger] occurs_at(bytes@, pre, q) by {
                        assert(bytes@.subrange(start as int, n as int)[q - start] == bytes@[q]);
                        if occurs_at(bytes@, pre, q) {
                            assert(bytes@.subrange(q, q + 1)[0] == bytes@[q]);
                        }
                    }
                    lemma_prefix_gap(t1, root, bytes@, pre, start as int, abs_pos as int);
                    lemma_gap_grow(t1, root, bytes@, matches@, start as int, abs_pos as int);
                }
                if ascii_bytes(bytes@) && end_form(t1, root) && t1.len() < NODE_LIMIT {
                    assert forall|q: int| start <= q < abs_pos implies #[trigger] bytes@[q] != needle by {
                        assert(bytes@.subrange(start as int, n as int)[q - start] == bytes@[q]);
                    }
                    lemma_end_single_byte_gap(t1, root, bytes@, needle, start as int, abs_pos as int);
                    lemma_end_gap_join(t1, root, bytes@, matches@, start as int, abs_pos as int);
                }
            }
            let found_end = self.match_from_bytes_with_prefix(bytes, abs_pos, 1);
            proof {
                let t2 = self.table();
                lemma_all_longest_extend(t1, t2, root, bytes@, matches@);
                lemma_extend_nullable(t1, t2, LocationKind::Begin, root);
                if search_laws_apply(t2, root, bytes@) {
                    lemma_gaps_shrink(t1, t2, root, bytes@, matches@, abs_pos as int);
                    if found_end is None {
                        assert forall|e: int| abs_pos <= e <= bytes@.len() implies !#[trigger] matches_at(t2, root, bytes@, abs_pos as int, e) by {
                            if e == abs_pos {
                                lemma_no_empty_match(t2, root, bytes@, abs_pos as int);
                            }
                        }
                    }
                }
                if ascii_bytes(bytes@) && end_form(t2, root) && t2.len() < NODE_LIMIT {
                    lemma_end_extend(t1, t2, root);
                    lemma_end_matches_extend(t1, t2, root, bytes@, matches@, abs_pos as int);
                }
            }
            match found_end {
                Some(end) => {
                    let ghost m0 = matches@;
                    matches.push(Match::new(abs_pos, end));
                    proof {
                        lemma_push_match(self.table(), self.root as int, bytes@, m0, Match { start: abs_pos, end });
                        if search_laws_apply(self.table(), root, bytes@) {
                            lemma_gaps_push(self.table(), root, bytes@, m0, Match { start: abs_pos, end });
                        }
                        if ascii_bytes(bytes@) && end_form(self.table(), root) && self.table().len() < NODE_LIMIT {
                            lemma_end_matches_push(self.table(), root, bytes@, m0, Match { start: abs_pos, end });
                        }
                    }
                    if end > abs_pos {
                        start = end;
                    } else {
                        start = abs_pos + 1;
                    }
                },
                None => {
                    proof {
                        if search_laws_apply(self.table(), root, bytes@) {
                            lemma_gap_grow(self.table(), root, bytes@, matches@, abs_pos as int, abs_pos + 1);
                        }
                        if ascii_bytes(bytes@) && end_form(self.table(), root) && self.table().len() < NODE_LIMIT {
                            lemma_end_gap_grow(self.table(), root, bytes@, matches@, abs_pos as int);
                        }
                    }
                    start = abs_pos + 1;
                },
            }
            proof {
                lemma_budget(s0 as int, start as int, n as int);
            }
        }
        proof {
            lemma_budget(0, 1, n as int);
        }
        self.push_end_match(bytes, &mut matches);
        matches
    }

    /// All matches found by searching for the literal prefix.
    #[verifier::rlimit(100)]
    #[verifier::spinoff_prover]
    fn find_all_with_literal_prefix(&mut self, bytes: &[u8], prefix: &[u8]) -> (r: Vec<Match>)
        requires
            old(self).wf(),
            old(self).prefix_accel matches PrefixAccelerator::Literal(v) && v@ == prefix@,
            prefix@.len() >= 2,
        ensures
            search_step(*old(self), *final(self)),
            final(self).state_count() <= old(self).state_count() + (bytes@.len() + 1) * (bytes@.len() + 1),
            ordered_matches(r@, bytes@.len() as int),
            all_longest(final(self).table(), final(self).root_id(), bytes@, r@),
            bytes@.len() > 0 ==> end_match_iff_nullable(final(self).table(), final(self).root_id(), bytes@.len() as int, r@),
            search_laws_apply(final(self).table(), final(self).root_id(), bytes@) ==> each_leftmost(
                final(self).table(),
                final(self).root_id(),
                bytes@,
                r@,
            ),
    {
        let n = bytes.len();
        let mut matches: Vec<Match> = Vec::new();
        let prefix_len = prefix.len();
        let mut start: usize = 0;
        let ghost root = self.root as int;
        loop
            invariant
                search_step(*old(self), *self),
                self.prefix_accel == old(self).prefix_accel,
                root == self.root,
                prefix_bytes(self.prefix_accel) == prefix@,
                prefix_len == prefix@.len(),
                prefix@.len() >= 2,
                n == bytes@.len(),
                start <= n,
                self.state_count() <= old(self).state_count() + start * (n + 1),
                start * (n + 1) <= (n + 1) * (n + 1),
                ordered_matches(matches@, n as int),
                matches@.len() > 0 ==> matches@.last().end <= start,
                resume_at(matches@, matches@.len() as int) <= start,
                forall|k: int| 0 <= k < matches@.len() ==> #[trigger] matches@[k].start < n,
                all_longest(self.table(), self.root as int, bytes@, matches@),
                search_laws_apply(self.table(), root, bytes@) ==> gaps_ok(self.table(), root, bytes@, matches@, start as int),
            ensures
                search_laws_apply(self.table(), root, bytes@) ==> gaps_ok(self.table(), root, bytes@, matches@, n as int),
            decreases n - start,
        {
            let ghost s0 = start;
            let ghost t1 = self.table();
            proof {
                lemma_literal_not_nullable(t1, root, prefix@);
            }
            let pos = match memmem_find(&bytes[start..n], prefix) {
                Some(p) => p,
                None => {
                    proof {
                        if search_laws_apply(t1, root, bytes@) {
                            assert forall|q: int| start <= q < n implies !#[trigger] occurs_at(bytes@, prefix@, q) by {
                                lemma_occurs_shift(bytes@, prefix@, start as int, q);
                            }
                            lemma_prefix_gap(t1, root, bytes@, prefix@, start as int, n as int);
                            lemma_gap_grow(t1, root, bytes@, matches@, start as int, n as int);
                        }
                    }
                    break;
                },
            };
            let abs_pos = start + pos;
            proof {
                assert(bytes@.subrange(start as int, n as int).subrange(pos as int, pos + prefix_len)
                    =~= bytes@.subrange(abs_pos as int, abs_pos + prefix_len));
                if search_laws_apply(t1, root, bytes@) {
                    assert forall|q: int| start <= q < abs_pos implies !#[trigger] occurs_at(bytes@, prefix@, q) by {
                        lemma_occurs_shift(bytes@, prefix@, start as int, q);
                    }
                    lemma_prefix_gap(t1, root, bytes@, prefix@, start as int, abs_pos as int);
                    lemma_gap_grow(t1, root, bytes@, matches@, start as int, abs_pos as int);
                }
            }
            let found_end = self.match_from_bytes_with_prefix(bytes, abs_pos, prefix_len);
            proof {
                let t2 = self.table();
                lemma_all_longest_extend(t1, t2, root, bytes@, matches@);
                lemma_extend_nullable(t1, t2, LocationKind::Begin, root);
                if search_laws_apply(t2, root, bytes@) {
                    lemma_gaps_shrink(t1, t2, root, bytes@, matches@, abs_pos as int);
                    if found_end is None {
                        assert(literal_prefix_of(t2, root, prefix@));
                        assert forall|e: int| abs_pos <= e <= bytes@.len() implies !#[trigger] matches_at(t2, root, bytes@, abs_pos as int, e) by {
                            if matches_at(t2, root, bytes@, abs_pos as int, e) {
                                lemma_prefix_long(t2, root, bytes@, prefix@, abs_pos as int, e);
                            }
                        }
                    }
                }
            }
            match found_end {
                Some(end) => {
                    let ghost m0 = matches@;
                    matches.push(Match::new(abs_pos, end));
                    proof {
                        lemma_push_match(self.table(), self.root as int, bytes@, m0, Match { start: abs_pos, end });
                        if search_laws_apply(self.table(), root, bytes@) {
                            lemma_gaps_push(self.table(), root, bytes@, m0, Match { start: abs_pos, end });
                        }
                    }
                    if end > abs_pos {
                        start = end;
                    } else {
                        start = abs_pos + 1;
                    }
                },
                None => {
                    proof {
                        if search_laws_apply(self.table(), root, bytes@) {
                            lemma_gap_grow(self.table(), root, bytes@, matches@, abs_pos as int, abs_pos + 1);
                        }
                    }
                    start = abs_pos + 1;
                },
            }
            proof {
                lemma_budget(s0 as int, start as int, n as int);
            }
        }
        proof {
            lemma_budget(0, 1, n as int);
        }
        self.push_end_match(bytes, &mut matches);
        matches
    }

    /// All matches found by searching for the start bytes.
    #[verifier::rlimit(100)]
    #[verifier::spinoff_prover]
    fn find_all_with_startset(&mut self, bytes: &[u8], start_bytes: &[u8]) -> (r: Vec<Match>)
        requires
            old(self).wf(),
            old(self).prefix_accel matches PrefixAccelerator::StartBytes(v) && v@ == start_bytes@,
        ensures
            search_step(*old(self), *final(self)),
            final(self).state_count() <= old(self).state_count() + (bytes@.len() + 1) * (bytes@.len() + 1),
            ordered_matches(r@, bytes@.len() as int),
            all_longest(final(self).table(), final(self).root_id(), bytes@, r@),
            bytes@.len() > 0 ==> end_match_iff_nullable(final(self).table(), final(self).root_id(), bytes@.len() as int, r@),
            search_laws_apply(final(self).table(), final(self).root_id(), bytes@) ==> each_leftmost(
                final(self).table(),
                final(self).root_id(),
                bytes@,
                r@,
            ),
            ascii_bytes(bytes@) && end_form(final(self).table(), final(self).root_id()) && final(self).table().len()
                < NODE_LIMIT ==> end_matches_upto(final(self).table(), final(self).root_id(), bytes@, r@, bytes@.len() as int + 1),
            ascii_bytes(bytes@) && begin_form(final(self).table(), final(self).root_id()) && final(self).table().len()
                < NODE_LIMIT ==> begin_all_result(final(self).table(), final(self).root_id(), bytes@, r@),
    {
        let n = bytes.len();
        let mut matches: Vec<Match> = Vec::new();
        let mut start: usize = 0;
        let ghost root = self.root as int;
        let ghost t0 = self.table();
        let ghost p = t0[root]->tail as int;
        proof {
            lemma_begin_all_start(t0, root, bytes@);
        }
        while start < n
            invariant
                search_step(*old(self), *self),
                root == self.root,
                self.prefix_accel matches PrefixAccelerator::StartBytes(v) && v@ == start_bytes@,
                n == bytes@.len(),
                start <= n,
                self.state_count() <= old(self).state_count() + start * (n + 1),
                start * (n + 1) <= (n + 1) * (n + 1),
                ordered_matches(matches@, n as int),
                matches@.len() > 0 ==> matches@.last().end <= start,
                resume_at(matches@, matches@.len() as int) <= start,
                forall|k: int| 0 <= k < matches@.len() ==> #[trigger] matches@[k].start < n,
                all_longest(self.table(), self.root as int, bytes@, matches@),
                search_laws_apply(self.table(), root, bytes@) ==> gaps_ok(self.table(), root, bytes@, matches@, start as int),
                ascii_bytes(bytes@) && end_form(self.table(), root) && self.table().len() < NODE_LIMIT ==> end_matches_upto(
                    self.table(),
                    root,
                    bytes@,
                    matches@,
                    start as int,
                ),
                p == t0[root]->tail,
                t0 == old(self).table(),
                table_wf(t0),
                0 <= root < t0.len(),
                ascii_bytes(bytes@) && begin_form(self.table(), root) && self.table().len() < NODE_LIMIT ==> begin_all_upto(
                    self.table(),
                    root,
                    bytes@,
                    matches@,
                    start as int,
                ),
            ensures
                search_laws_apply(self.table(), root, bytes@) ==> gaps_ok(self.table(), root, bytes@, matches@, n as int),
                ascii_bytes(bytes@) && end_form(self.table(), root) && self.table().len() < NODE_LIMIT ==> end_matches_upto(
                    self.table(),
                    root,
                    bytes@,
                    matches@,
                    n as int,
                ),
                ascii_bytes(bytes@) && begin_form(self.table(), root) && self.table().len() < NODE_LIMIT && n > 0
                    ==> begin_all_upto(self.table(), root, bytes@, matches@, n as int),
            decreases n - start,
        {
            let ghost s0 = start;
            let ghost t1 = self.table();
            proof {
                assert(accel_ok(t1, self.root, self.prefix_accel, self.prefix_end_state));
                lemma_begin_extend(t0, t1, root, bytes@);
            }
            let pos = match Self::next_start_byte(bytes, start, start_bytes) {
                Some(rel_pos) => rel_pos,
                None => {
                    proof {
                        if search_laws_apply(t1, root, bytes@) {
                            lemma_start_bytes_gap(t1, root, bytes@, start_bytes@, start as int, n as int);
                            lemma_gap_grow(t1, root, bytes@, matches@, start as int, n as int);
                        }
                        if ascii_bytes(bytes@) && end_form(t1, root) && t1.len() < NODE_LIMIT {
                            lemma_end_start_bytes_gap(t1, root, bytes@, start_bytes@, start as int, n as int);
                            lemma_end_gap_join(t1, root, bytes@, matches@, start as int, n as int);
                        }
                        if ascii_bytes(bytes@) && begin_form(t1, root) && t1.len() < NODE_LIMIT && start == 0 {
                            assert(!start_bytes@.contains(bytes@[start + 0]));
                            lemma_begin_skip_start_bytes(t1, root, bytes@, start_bytes@);
                        }
                        if ascii_bytes(bytes@) && begin_form(t1, root) && t1.len() < NODE_LIMIT {
                            lemma_begin_all_skip(t1, root, bytes@, matches@, start as int, n as int);
                        }
                    }
                    break;
                },
            };
            let abs_pos = start + pos;
            proof {
                if search_laws_apply(t1, root, bytes@) {
                    lemma_start_bytes_gap(t1, root, bytes@, start_bytes@, start as int, abs_pos as int);
                    lemma_gap_grow(t1, root, bytes@, matches@, start as int, abs_pos as int);
                }
                if ascii_bytes(bytes@) && end_form(t1, root) && t1.len() < NODE_LIMIT {
                    lemma_end_start_bytes_gap(t1, root, bytes@, start_bytes@, start as int, abs_pos as int);
                    lemma_end_gap_join(t1, root, bytes@, matches@, start as int, abs_pos as int);
                }
                if ascii_bytes(bytes@) && begin_form(t1, root) && t1.len() < NODE_LIMIT && start == 0 && abs_pos > 0 {
                    assert(!start_bytes@.contains(bytes@[start + 0]));
                    lemma_begin_skip_start_bytes(t1, root, bytes@, start_bytes@);
                }
                if ascii_bytes(bytes@) && begin_form(t1, root) && t1.len() < NODE_LIMIT {
                    lemma_begin_all_skip(t1, root, bytes@, matches@, start as int, abs_pos as int);
                }
            }
            let found_end = self.match_from_bytes(bytes, abs_pos);
            proof {
                lemma_begin_extend(t1, self.table(), root, bytes@);
                reveal(begin_form_result);
                if ascii_bytes(bytes@) && begin_form(self.table(), root) && self.table().len() < NODE_LIMIT {
                    lemma_begin_all_found(self.table(), root, bytes@, matches@, abs_pos, found_end);
                }
                lemma_all_longest_extend(t1, self.table(), self.root as int, bytes@, matches@);
                if search_laws_apply(self.table(), root, bytes@) {
                    lemma_gaps_shrink(t1, self.table(), root, bytes@, matches@, abs_pos as int);
                    assert(bytes@[abs_pos as int] < 128);
                }
                if ascii_bytes(bytes@) && end_form(self.table(), root) && self.table().len() < NODE_LIMIT {
                    assert(bytes@[abs_pos as int] < 128);
                    lemma_end_extend(t1, self.table(), root);
                    lemma_end_matches_extend(t1, self.table(), root, bytes@, matches@, abs_pos as int);
                    reveal(end_root_result);
                    assert(found_end == (if end_accepts(
                        self.table(),
                        root,
                        byte_chars(bytes@.subrange(abs_pos as int, n as int)),
                    ) {
                        Some(n)
                    } else {
                        None
                    }));
                }
            }
            match found_end {
                Some(end) => {
                    let ghost m0 = matches@;
                    matches.push(Match::new(abs_pos, end));
                    proof {
                        lemma_push_match(self.table(), self.root as int, bytes@, m0, Match { start: abs_pos, end });
                        if search_laws_apply(self.table(), root, bytes@) {
                            lemma_gaps_push(self.table(), root, bytes@, m0, Match { start: abs_pos, end });
                        }
                        if ascii_bytes(bytes@) && end_form(self.table(), root) && self.table().len() < NODE_LIMIT {
                            lemma_end_matches_push(self.table(), root, bytes@, m0, Match { start: abs_pos, end });
                        }
                    }
                    if end > abs_pos {
                        start = end;
                    } else {
                        start = next_char_start(abs_pos, bytes[abs_pos], n);
                    }
                },
                None => {
                    proof {
                        if search_laws_apply(self.table(), root, bytes@) {
                            lemma_gap_grow(self.table(), root, bytes@, matches@, abs_pos as int, abs_pos + 1);
                        }
                        if ascii_bytes(bytes@) && end_form(self.table(), root) && self.table().len() < NODE_LIMIT {
                            lemma_end_gap_grow(self.table(), root, bytes@, matches@, abs_pos as int);
                        }
                        if ascii_bytes(bytes@) && begin_form(self.table(), root) && self.table().len() < NODE_LIMIT {
                            assert(bytes@[abs_pos as int] < 128);
                        }
                    }
                    start = next_char_start(abs_pos, bytes[abs_pos], n);
                },
            }
            proof {
                lemma_budget(s0 as int, start as int, n as int);
            }
        }
        proof {
            let tf = self.table();
            lemma_begin_extend(t0, tf, root, bytes@);
            if begin_form(tf, root) {
                assert(node_ok(tf[root], root));
                assert(!nullable(tf, LocationKind::End, tf[root]->head as int));
                if n > 0 && tf.len() < NODE_LIMIT && ascii_bytes(bytes@) {
                    lemma_begin_all_done(tf, root, bytes@, matches@);
                }
                if n == 0 && tf.len() < NODE_LIMIT {
                    assert(accel_ok(t0, self.root, self.prefix_accel, self.prefix_end_state));
                    lemma_accel_extend(t0, tf, self.root, self.prefix_accel, self.prefix_end_state);
                    lemma_plain_nullable(tf, LocationKind::Begin, p);
                    assert(nullable(tf, LocationKind::Begin, tf[root]->head as int));
                    assert(bytes@.subrange(0, 0) =~= Seq::<u8>::empty());
                    assert(byte_chars(Seq::<u8>::empty()) =~= Seq::<char>::empty());
                }
            }
        }
        self.push_end_match(bytes, &mut matches);
        matches
    }

    /// Adds the empty match at the end of the input when the root is
    /// nullable there.
    fn push_end_match(&mut self, bytes: &[u8], matches: &mut Vec<Match>)
        requires
            old(self).wf(),
            ordered_matches(old(matches)@, bytes@.len() as int),
            resume_at(old(matches)@, old(matches)@.len() as int) <= bytes@.len(),
            all_longest(old(self).table(), old(self).root_id(), bytes@, old(matches)@),
        ensures
            *final(self) == *old(self),
            ordered_matches(final(matches)@, bytes@.len() as int),
            all_longest(final(self).table(), final(self).root_id(), bytes@, final(matches)@),
            final(matches)@ == (if nullable(old(self).table(), LocationKind::End, old(self).root_id()) {
                old(matches)@.push(Match { start: bytes@.len() as usize, end: bytes@.len() as usize })
            } else {
                old(matches)@
            }),
            bytes@.len() > 0 && (forall|k: int| 0 <= k < old(matches)@.len() ==> #[trigger] old(matches)@[k].start
                < bytes@.len()) ==> end_match_iff_nullable(
                final(self).table(),
                final(self).root_id(),
                bytes@.len() as int,
                final(matches)@,
            ),
            laws_apply(old(self).table(), old(self).root_id()) ==> gaps_ok(
                old(self).table(),
                old(self).root_id(),
                bytes@,
                old(matches)@,
                bytes@.len() as int,
            ) ==> each_leftmost(final(self).table(), final(self).root_id(), bytes@, final(matches)@),
            end_form(old(self).table(), old(self).root_id()) && end_matches_upto(
                old(self).table(),
                old(self).root_id(),
                bytes@,
                old(matches)@,
                bytes@.len() as int,
            ) ==> end_matches_upto(final(self).table(), final(self).root_id(), bytes@, final(matches)@, bytes@.len() as int + 1),
    {
        let n = bytes.len();
        let ghost t = self.table();
        let ghost root = self.root as int;
        let ghost m_in = matches@;
        proof {
            if end_form(t, root) {
                lemma_end_nullable(t, LocationKind::End, root);
                assert(byte_chars(bytes@.subrange(n as int, n as int)) =~= Seq::<char>::empty());
            }
        }
        proof {
            if m_in.len() > 0 && n > 0 && (forall|k: int| 0 <= k < m_in.len() ==> #[trigger] m_in[k].start < n) {
                assert(m_in[m_in.len() - 1].start < n);
            }
        }
        if is_nullable(&self.builder, LocationKind::End, self.root) {
            let ghost m0 = matches@;
            matches.push(Match::new(n, n));
            proof {
                if laws_apply(t, root) {
                    lemma_empty_match(t, root, bytes@, n as int, LocationKind::End);
                }
                lemma_push_match(t, root, bytes@, m0, Match { start: n, end: n });
                if laws_apply(t, root) && gaps_ok(t, root, bytes@, m0, n as int) {
                    lemma_gaps_push(t, root, bytes@, m0, Match { start: n, end: n });
                }
                if end_form(t, root) && end_matches_upto(t, root, bytes@, m0, n as int) {
                    lemma_end_matches_push(t, root, bytes@, m0, Match { start: n, end: n });
                    assert(resume_at(matches@, matches@.len() as int) == n + 1);
                }
            }
        } else {
            proof {
                if end_form(t, root) && end_matches_upto(t, root, bytes@, matches@, n as int) {
                    lemma_end_gap_grow(t, root, bytes@, matches@, n as int);
                }
                if laws_apply(t, root) && gaps_ok(t, root, bytes@, matches@, n as int) {
                    lemma_empty_match(t, root, bytes@, n as int, LocationKind::End);
                    let ms = matches@;
                    assert forall|q: int, e: int|
                        resume_at(ms, ms.len() as int) <= q < n + 1 && q <= e <= bytes@.len() && char_start(bytes@, q) implies !#[trigger] matches_at(
                        t,
                        root,
                        bytes@,
                        q,
                        e,
                    ) by {
                        if q == n {
                            assert(e == n);
                        }
                    }
                }
            }
        }
    }

    /// All non-overlapping matches, each the longest match from the first
    /// position after the end of the one before; none once more DFA states
    /// have been built than the state limit allows.
    pub fn find_all(&mut self, input: &str) -> (r: Vec<Match>)
        requires
            old(self).wf(),
        ensures
            search_step(*old(self), *final(self)),
            final(self).state_count() <= old(self).state_count() + search_budget(input.spec_bytes().len() as int),
            final(self).state_count() > final(self).state_limit() ==> r@.len() == 0,
            ordered_matches(r@, input.spec_bytes().len() as int),
            all_longest(final(self).table(), final(self).root_id(), input.spec_bytes(), r@),
            final(self).state_count() <= final(self).state_limit() ==> end_match_iff_nullable(
                final(self).table(),
                final(self).root_id(),
                input.spec_bytes().len() as int,
                r@,
            ),
            r@.len() > 0 ==> char_start(input.spec_bytes(), r@[0].start as int),
            final(self).state_count() <= final(self).state_limit() && laws_apply(
                final(self).table(),
                final(self).root_id(),
            ) ==> each_leftmost(final(self).table(), final(self).root_id(), input.spec_bytes(), r@),
            final(self).state_count() <= final(self).state_limit() && end_form(final(self).table(), final(self).root_id())
                && final(self).table().len() < NODE_LIMIT ==> end_matches_upto(
                final(self).table(),
                final(self).root_id(),
                input.spec_bytes(),
                r@,
                input.spec_bytes().len() as int + 1,
            ),
            final(self).state_count() <= final(self).state_limit() && begin_form(
                final(self).table(),
                final(self).root_id(),
            ) && final(self).table().len() < NODE_LIMIT ==> begin_all_result(
                final(self).table(),
                final(self).root_id(),
                input.spec_bytes(),
                r@,
            ),
    {
        let r = self.search_all(input);
        if self.over_state_limit() {
            Vec::new()
        } else {
            r
        }
    }

    /// All non-overlapping matches, whatever the number of states built.
    #[verifier::rlimit(100)]
    #[verifier::spinoff_prover]
    fn search_all(&mut self, input: &str) -> (r: Vec<Match>)
        requires
            old(self).wf(),
        ensures
            search_step(*old(self), *final(self)),
            final(self).state_count() <= old(self).state_count() + search_budget(input.spec_bytes().len() as int),
            ordered_matches(r@, input.spec_bytes().len() as int),
            all_longest(final(self).table(), final(self).root_id(), input.spec_bytes(), r@),
            end_match_iff_nullable(final(self).table(), final(self).root_id(), input.spec_bytes().len() as int, r@),
            r@.len() > 0 ==> char_start(input.spec_bytes(), r@[0].start as int),
            laws_apply(final(self).table(), final(self).root_id()) ==> each_leftmost(
                final(self).table(),
                final(self).root_id(),
                input.spec_bytes(),
                r@,
            ),
            end_form(final(self).table(), final(self).root_id()) && final(self).table().len() < NODE_LIMIT
                ==> end_matches_upto(
                final(self).table(),
                final(self).root_id(),
                input.spec_bytes(),
                r@,
                input.spec_bytes().len() as int + 1,
            ),
            begin_form(final(self).table(), final(self).root_id()) && final(self).table().len() < NODE_LIMIT
                ==> begin_all_result(final(self).table(), final(self).root_id(), input.spec_bytes(), r@),
    {
        let mut matches: Vec<Match> = Vec::new();
        let bytes = input.as_bytes();
        let n = bytes.len();
        let ghost root = self.root as int;
        let ghost t0 = self.table();
        let ghost p = t0[root]->tail as int;
        if n == 0 {
            proof {
                if laws_apply(self.table(), root) {
                    lemma_empty_match(self.table(), root, bytes@, 0, LocationKind::BeginEnd);
                }
            }
            proof {
                if end_form(self.table(), root) {
                    lemma_end_nullable(self.table(), LocationKind::BeginEnd, root);
                    assert(byte_chars(bytes@.subrange(0, 0)) =~= Seq::<char>::empty());
                }
                if begin_form(t0, root) {
                    assert(node_ok(t0[root], root));
                    lemma_plain_nullable(t0, LocationKind::BeginEnd, p);
                    assert(nullable(t0, LocationKind::BeginEnd, t0[root]->head as int));
                    assert(bytes@.subrange(0, 0) =~= Seq::<u8>::empty());
                    assert(byte_chars(Seq::<u8>::empty()) =~= Seq::<char>::empty());
                }
            }
            if is_nullable(&self.builder, LocationKind::BeginEnd, self.root) {
                matches.push(Match::new(0, 0));
            }
            proof {
                if laws_apply(self.table(), root) {
                    assert(matches@.len() == 1 ==> matches@[0] == Match { start: 0, end: 0 });
                    assert forall|q: int, e: int|
                        resume_at(matches@, matches@.len() as int) <= q < 1 && q <= e <= bytes@.len() implies !#[trigger] matches_at(
                        self.table(),
                        root,
                        bytes@,
                        q,
                        e,
                    ) by {
                        assert(q == 0 && e == 0);
                    }
                }
            }
            return matches;
        }
        proof {
            lemma_budget(0, 1, n as int);
        }
        if all_ascii(bytes) {
            match &self.prefix_accel {
                PrefixAccelerator::SingleByte(needle) => {
                    let needle = *needle;
                    let ghost ts = self.table();
                    proof {
                        assert(regex_inv(*self, ts));
                        assert(prefix_bytes(self.prefix_accel) == seq![needle]);
                        lemma_begin_no_prefix(ts, root, seq![needle]);
                    }
                    let r = self.find_all_with_single_byte_prefix(bytes, needle);
                    proof {
                        lemma_ascii_first_start(bytes@, r@);
                        lemma_begin_extend(ts, self.table(), root, bytes@);
                    }
                    return r;
                },
                PrefixAccelerator::Literal(prefix) => {
                    if prefix.len() >= 2 {
                        let prefix = copy_bytes(prefix);
                        let ghost tl = self.table();
                        proof {
                            assert(regex_inv(*self, tl));
                            lemma_end_no_long_prefix(tl, root, prefix@);
                            lemma_begin_no_prefix(tl, root, prefix@);
                        }
                        let r = self.find_all_with_literal_prefix(bytes, prefix.as_slice());
                        proof {
                            lemma_ascii_first_start(bytes@, r@);
                            lemma_end_extend(tl, self.table(), root);
                            lemma_begin_extend(tl, self.table(), root, bytes@);
                        }
                        return r;
                    }
                },
                PrefixAccelerator::StartBytes(start_bytes) => {
                    let start_bytes = copy_bytes(start_bytes);
                    let r = self.find_all_with_startset(bytes, start_bytes.as_slice());
                    proof {
                        lemma_ascii_first_start(bytes@, r@);
                    }
                    return r;
                },
                _ => {},
            }
        }
        proof {
            vstd::utf8::encode_utf8_valid_utf8(input@);
            lemma_first_char_start(bytes@);
        }
        let mut pos: usize = 0;
        proof {
            lemma_begin_extend(t0, self.table(), root, bytes@);
            lemma_begin_all_start(self.table(), root, bytes@);
        }
        while pos < n
            invariant
                search_step(*old(self), *self),
                n == bytes@.len(),
                bytes@ == input.spec_bytes(),
                valid_utf8(bytes@),
                pos <= n,
                matches@.len() > 0 ==> char_start(bytes@, matches@[0].start as int),
                matches@.len() == 0 ==> char_start(bytes@, pos as int),
                self.state_count() <= old(self).state_count() + pos * (n + 1),
                pos * (n + 1) <= (n + 1) * (n + 1),
                ordered_matches(matches@, n as int),
                matches@.len() > 0 ==> matches@.last().end <= pos,
                resume_at(matches@, matches@.len() as int) <= pos,
                forall|k: int| 0 <= k < matches@.len() ==> #[trigger] matches@[k].start < n,
                all_longest(self.table(), self.root as int, bytes@, matches@),
                root == self.root,
                laws_apply(self.table(), root) ==> gaps_ok(self.table(), root, bytes@, matches@, pos as int),
                end_form(self.table(), root) && self.table().len() < NODE_LIMIT ==> end_matches_upto(
                    self.table(),
                    root,
                    bytes@,
                    matches@,
                    pos as int,
                ),
                p == t0[root]->tail,
                t0 == old(self).table(),
                begin_form(self.table(), root) && self.table().len() < NODE_LIMIT ==> begin_all_upto(
                    self.table(),
                    root,
                    bytes@,
                    matches@,
                    pos as int,
                ),
            decreases n - pos,
        {
            let ghost s0 = pos;
            let b = bytes[pos];
            let ghost t1 = self.table();
            if b < 128 && (self.startset & (1u128 << b)) == 0 && !self.nullable_at_start {
                proof {
                    if laws_apply(t1, root) {
                        lemma_bits(self.startset, 0, b as u32, b as u32);
                        assert(regex_inv(*self, t1));
                        lemma_start_byte_excluded(t1, root, bytes@, pos as int);
                        lemma_gap_grow(t1, root, bytes@, matches@, pos as int, pos + 1);
                    }
                    if begin_form(t1, root) && t1.len() < NODE_LIMIT {
                        if pos == 0 {
                            lemma_bits(self.startset, 0, b as u32, b as u32);
                            assert(regex_inv(*self, t1));
                            lemma_begin_skip_zero(t1, root, bytes@);
                        }
                        lemma_begin_all_skip(t1, root, bytes@, matches@, pos as int, pos + 1);
                    }
                    if end_form(t1, root) && t1.len() < NODE_LIMIT {
                        lemma_bits(self.startset, 0, b as u32, b as u32);
                        assert(regex_inv(*self, t1));
                        lemma_end_start_byte_excluded(t1, root, bytes@, pos as int);
                        lemma_end_gap_grow(t1, root, bytes@, matches@, pos as int);
                    }
                }
                pos = pos + 1;
                proof {
                    lemma_budget(s0 as int, pos as int, n as int);
                    if matches@.len() == 0 {
                        lemma_next_char_start(bytes@, s0 as int);
                    }
                }
                continue;
            }
            let found_end = self.match_from_bytes(bytes, pos);
            proof {
                lemma_all_longest_extend(t1, self.table(), self.root as int, bytes@, matches@);
                if laws_apply(self.table(), root) {
                    lemma_gaps_shrink(t1, self.table(), root, bytes@, matches@, pos as int);
                }
                if end_form(self.table(), root) && self.table().len() < NODE_LIMIT {
                    lemma_end_extend(t1, self.table(), root);
                    lemma_end_matches_extend(t1, self.table(), root, bytes@, matches@, pos as int);
                }
                reveal(end_root_result);
                lemma_begin_extend(t1, self.table(), root, bytes@);
                reveal(begin_form_result);
                if begin_form(self.table(), root) && self.table().len() < NODE_LIMIT {
                    lemma_begin_all_found(self.table(), root, bytes@, matches@, pos, found_end);
                }
            }
            match found_end {
                Some(end) => {
                    let ghost m0 = matches@;
                    matches.push(Match::new(pos, end));
                    proof {
                        assert(matches@[0] == (if m0.len() > 0 { m0[0] } else { Match { start: pos, end } }));
                        lemma_push_match(self.table(), self.root as int, bytes@, m0, Match { start: pos, end });
                        if laws_apply(self.table(), root) {
                            lemma_gaps_push(self.table(), root, bytes@, m0, Match { start: pos, end });
                        }
                        if end_form(self.table(), root) && self.table().len() < NODE_LIMIT {
                            lemma_end_matches_push(self.table(), root, bytes@, m0, Match { start: pos, end });
                        }
                    }
                    if end > pos {
                        pos = end;
                    } else {
                        proof {
                            if laws_apply(self.table(), root) {
                                lemma_gap_step(self.table(), root, bytes@, matches@, pos as int);
                            }
                        }
                        pos = next_char_start(pos, b, n);
                    }
                },
                None => {
                    proof {
                        if laws_apply(self.table(), root) {
                            lemma_gap_grow(self.table(), root, bytes@, matches@, pos as int, pos + 1);
                            lemma_gap_step(self.table(), root, bytes@, matches@, pos as int);
                        }
                        if begin_form(self.table(), root) && self.table().len() < NODE_LIMIT {
                            lemma_begin_all_skip(
                                self.table(),
                                root,
                                bytes@,
                                matches@,
                                pos + 1,
                                step_from(pos as int, b, n as int),
                            );
                        }
                        if end_form(self.table(), root) && self.table().len() < NODE_LIMIT {
                            lemma_end_gap_grow(self.table(), root, bytes@, matches@, pos as int);
                            lemma_end_gap_step(self.table(), root, bytes@, matches@, pos as int);
                        }
                        if matches@.len() == 0 {
                            lemma_next_char_start(bytes@, pos as int);
                        }
                    }
                    pos = next_char_start(pos, b, n);
                },
            }
            proof {
                lemma_budget(s0 as int, pos as int, n as int);
            }
        }
        proof {
            lemma_budget(0, 1, n as int);
        }
        let ghost m1 = matches@;
        proof {
            let tf = self.table();
            if begin_form(tf, root) {
                assert(node_ok(tf[root], root));
                assert(!nullable(tf, LocationKind::End, tf[root]->head as int));
                if tf.len() < NODE_LIMIT {
                    lemma_begin_all_done(tf, root, bytes@, m1);
                }
            }
        }
        self.push_end_match(bytes, &mut matches);
        proof {
            if m1.len() > 0 {
                assert(matches@[0] == m1[0]);
            }
        }
        matches
    }
}

/// Adding a match that starts no earlier than the last one ended keeps the
/// list ordered and, where the laws apply, made of longest matches.
proof fn lemma_push_match(t: NodeTable, root: int, bytes: Seq<u8>, ms: Seq<Match>, m: Match)
    requires
        ordered_matches(ms, bytes.len() as int),
        all_longest(t, root, bytes, ms),
        m.start <= m.end <= bytes.len(),
        m.start >= resume_at(ms, ms.len() as int),
        laws_apply(t, root) ==> longest_match(t, root, bytes, m),
    ensures
        ordered_matches(ms.push(m), bytes.len() as int),
        all_longest(t, root, bytes, ms.push(m)),
{
    let ms2 = ms.push(m);
    assert forall|k: int| 0 < k < ms2.len() implies ms2[k].start >= #[trigger] resume_at(ms2, k) by {
        assert(ms2[k - 1] == ms[k - 1]);
        assert(resume_at(ms2, k) == resume_at(ms, k));
        if k < ms.len() {
            assert(ms2[k] == ms[k]);
            assert(ms[k].start >= resume_at(ms, k));
        }
    }
    assert forall|k: int| 0 <= k < ms2.len() - 1 implies (#[trigger] ms2[k]).end <= ms2[k + 1].start by {
        if k < ms.len() - 1 {
            assert(ms2[k] == ms[k] && ms2[k + 1] == ms[k + 1]);
        } else {
            assert(ms2[k] == ms.last());
        }
    }
    assert forall|k: int| 0 <= k < ms2.len() implies (#[trigger] ms2[k]).start <= ms2[k].end <= bytes.len() by {
        if k < ms.len() {
            assert(ms2[k] == ms[k]);
        }
    }
    if laws_apply(t, root) {
        assert forall|k: int| 0 <= k < ms2.len() implies longest_match(t, root, bytes, #[trigger] ms2[k]) by {
            if k < ms.len() {
                assert(ms2[k] == ms[k]);
            }
        }
    }
}

/// The start set of an old node is the same in a grown table.
proof fn lemma_first_bytes_extend(t1: NodeTable, t2: NodeTable, id: int)
    requires
        table_extends(t1, t2),
        0 <= id < t1.len(),
    ensures
        first_bytes(t2, id) == first_bytes(t1, id),
    decreases id, 1int, 0int,
{
    if id >= 7 {
        assert(t2[id] == t1[id]);
        match t1[id] {
            NodeView::Loop { node, .. } => {
                if node < id {
                    lemma_first_bytes_extend(t1, t2, node as int);
                }
            },
            NodeView::Or(ns) => {
                lemma_union_extend(t1, t2, ns, id, ns.len() as int);
            },
            NodeView::And(ns) => {
                lemma_inter_extend(t1, t2, ns, id, ns.len() as int);
            },
            NodeView::Not(i) => {
                if i < id {
                    lemma_first_bytes_extend(t1, t2, i as int);
                }
            },
            NodeView::Concat { head, tail } => {
                if head < id && tail < id {
                    lemma_first_bytes_extend(t1, t2, head as int);
                    lemma_first_bytes_extend(t1, t2, tail as int);
                    lemma_extend_nullable(t1, t2, LocationKind::Begin, head as int);
                }
            },
            NodeView::LookAround { node, .. } => {
                if node < id {
                    lemma_first_bytes_extend(t1, t2, node as int);
                }
            },
            _ => {},
        }
    }
}

proof fn lemma_union_extend(t1: NodeTable, t2: NodeTable, ns: Seq<RegexNodeId>, id: int, k: int)
    requires
        table_extends(t1, t2),
        0 <= id < t1.len(),
    ensures
        union_first_bytes(t2, ns, id, k) == union_first_bytes(t1, ns, id, k),
    decreases id, 0int, k,
{
    if 0 < k <= ns.len() {
        lemma_union_extend(t1, t2, ns, id, k - 1);
        if 0 <= ns[k - 1] < id {
            lemma_first_bytes_extend(t1, t2, ns[k - 1] as int);
        }
    }
}

proof fn lemma_inter_extend(t1: NodeTable, t2: NodeTable, ns: Seq<RegexNodeId>, id: int, k: int)
    requires
        table_extends(t1, t2),
        0 <= id < t1.len(),
    ensures
        inter_first_bytes(t2, ns, id, k) == inter_first_bytes(t1, ns, id, k),
    decreases id, 0int, k,
{
    if 0 < k <= ns.len() {
        lemma_inter_extend(t1, t2, ns, id, k - 1);
        if 0 <= ns[k - 1] < id {
            lemma_first_bytes_extend(t1, t2, ns[k - 1] as int);
        }
    }
}

/// The acceleration data stays correct when the table grows.
proof fn lemma_accel_extend(t1: NodeTable, t2: NodeTable, root: RegexNodeId, accel: PrefixAccelerator, st: Option<
    RegexNodeId,
>)
    requires
        table_extends(t1, t2),
        table_wf(t1),
        root < t1.len(),
        accel_ok(t1, root, accel, st),
    ensures
        accel_ok(t2, root, accel, st),
{
    lemma_extend_all(t1, t2, root as int);
    lemma_extend_nullable(t1, t2, LocationKind::Begin, root as int);
    lemma_first_bytes_extend(t1, t2, root as int);
    if prefix_bytes(accel).len() > 0 {
        lemma_literal_prefix_extend(t1, t2, root as int, prefix_bytes(accel));
    }
    if let Some(s) = st {
        lemma_extend_all(t1, t2, s as int);
        if laws_apply(t2, root as int) {
            assert forall|v: Seq<char>| #[trigger] accepts(t2, s as int, v) == accepts(
                t2,
                root as int,
                byte_chars(prefix_bytes(accel)) + v,
            ) by {
                assert(accepts(t1, s as int, v) == accepts(t1, root as int, byte_chars(prefix_bytes(accel)) + v));
            }
        }
        if end_form(t2, root as int) && t2.len() < NODE_LIMIT {
            lemma_end_extend(t1, t2, root as int);
            lemma_end_extend(t1, t2, s as int);
            assert forall|v: Seq<char>| #[trigger] end_accepts(t2, s as int, v) == end_accepts(
                t2,
                root as int,
                byte_chars(prefix_bytes(accel)) + v,
            ) by {
                assert(end_accepts(t1, s as int, v) == end_accepts(t1, root as int, byte_chars(prefix_bytes(accel)) + v));
            }
        }
    }
}

/// Every member's start set is part of the union.
proof fn lemma_union_has(t: NodeTable, ns: Seq<RegexNodeId>, id: int, k: int, j: int, c: u32)
    requires
        0 <= j < k <= ns.len(),
        0 <= ns[j] < id,
        c < 128,
        bit_of(first_bytes(t, ns[j] as int), c),
    ensures
        bit_of(union_first_bytes(t, ns, id, k), c),
    decreases k,
{
    let rest = union_first_bytes(t, ns, id, k - 1);
    if j < k - 1 {
        lemma_union_has(t, ns, id, k - 1, j, c);
    }
    if 0 <= ns[k - 1] < id {
        lemma_bits(rest, first_bytes(t, ns[k - 1] as int), c, c);
    }
}

/// A bit in every member's start set is in the intersection.
proof fn lemma_inter_has(t: NodeTable, ns: Seq<RegexNodeId>, id: int, k: int, c: u32)
    requires
        0 <= k <= ns.len(),
        c < 128,
        forall|j: int| 0 <= j < k ==> #[trigger] bit_of(first_bytes(t, ns[j] as int), c),
    ensures
        bit_of(inter_first_bytes(t, ns, id, k), c),
    decreases k,
{
    if k == 0 {
        lemma_bits(0, 0, c, c);
    } else {
        lemma_inter_has(t, ns, id, k - 1, c);
        let rest = inter_first_bytes(t, ns, id, k - 1);
        if 0 <= ns[k - 1] < id {
            lemma_bits(rest, first_bytes(t, ns[k - 1] as int), c, c);
        }
    }
}

/// The start set is sound for a node without anchors or lookarounds: a
/// non-empty word it accepts that begins with an ASCII character has that
/// character in the start set.
pub proof fn lemma_startset_sound(t: NodeTable, id: int, w: Seq<char>)
    requires
        table_wf(t),
        plain(t, id),
        accepts(t, id, w),
        w.len() > 0,
        (w[0] as u32) < 128,
    ensures
        bit_of(first_bytes(t, id), w[0] as u32),
    decreases id,
{
    let c = w[0] as u32;
    lemma_bits(0, 0, c, c);
    if id == 0 || id == 1 {
        lemma_eps_bot(t, w);
    } else if id == 2 || id == 3 || id == 4 {
    } else {
        assert(node_ok(t[id], id));
        match t[id] {
            NodeView::Singleton(cs) => {},
            NodeView::Loop { node, low, high } => {
                assert(crate::semantics::loop_accepts(t, node as int, low, high, w));
                assert(exists|i: int|
                    1 <= i <= w.len() && accepts(t, node as int, #[trigger] w.subrange(0, i)) && crate::semantics::loop_accepts(
                        t,
                        node as int,
                        crate::semantics::decr(low),
                        crate::semantics::decr(high),
                        w.subrange(i, w.len() as int),
                    ));
                let i = choose|i: int|
                    1 <= i <= w.len() && accepts(t, node as int, #[trigger] w.subrange(0, i)) && crate::semantics::loop_accepts(
                        t,
                        node as int,
                        crate::semantics::decr(low),
                        crate::semantics::decr(high),
                        w.subrange(i, w.len() as int),
                    );
                assert(w.subrange(0, i)[0] == w[0]);
                lemma_startset_sound(t, node as int, w.subrange(0, i));
            },
            NodeView::Or(ns) => {
                let k = choose|k: int| 0 <= k < ns.len() && 0 <= #[trigger] ns[k] < id && accepts(t, ns[k] as int, w);
                lemma_startset_sound(t, ns[k] as int, w);
                lemma_union_has(t, ns, id, ns.len() as int, k, c);
            },
            NodeView::And(ns) => {
                if ns.len() > 0 {
                    assert forall|j: int| 0 <= j < ns.len() implies #[trigger] bit_of(first_bytes(t, ns[j] as int), c) by {
                        lemma_startset_sound(t, ns[j] as int, w);
                    }
                    lemma_inter_has(t, ns, id, ns.len() as int, c);
                }
            },
            NodeView::Concat { head, tail } => {
                let i = choose|i: int|
                    0 <= i <= w.len() && accepts(t, head as int, #[trigger] w.subrange(0, i)) && accepts(
                        t,
                        tail as int,
                        w.subrange(i, w.len() as int),
                    );
                let fh = first_bytes(t, head as int);
                let ft = first_bytes(t, tail as int);
                lemma_bits(fh, ft, c, c);
                if i > 0 {
                    assert(w.subrange(0, i)[0] == w[0]);
                    lemma_startset_sound(t, head as int, w.subrange(0, i));
                } else {
                    assert(w.subrange(0, i) =~= Seq::<char>::empty());
                    assert(w.subrange(i, w.len() as int) =~= w);
                    lemma_plain_nullable(t, LocationKind::Begin, head as int);
                    lemma_startset_sound(t, tail as int, w);
                }
            },
            _ => {},
        }
    }
}

/// Two set bits below `n` make the count at least 2.
proof fn lemma_bit_count_two(x: u128, a: int, b: int, n: int)
    requires
        0 <= a < b < n <= 128,
        bit_of(x, a as u32),
        bit_of(x, b as u32),
    ensures
        bit_count(x, n) >= 2,
    decreases n,
{
    if n - 1 > b {
        lemma_bit_count_two(x, a, b, n - 1);
    } else {
        lemma_bit_count_one(x, a, n - 1);
    }
}

/// A set bit below `n` makes the count at least 1.
proof fn lemma_bit_count_one(x: u128, a: int, n: int)
    requires
        0 <= a < n <= 128,
        bit_of(x, a as u32),
    ensures
        bit_count(x, n) >= 1,
    decreases n,
{
    if n - 1 > a {
        lemma_bit_count_one(x, a, n - 1);
    }
}

/// In a set with a single bit, two set bits are the same bit.
proof fn lemma_single_bit(x: u128, a: int, b: int)
    requires
        0 <= a < 128,
        0 <= b < 128,
        bit_count(x, 128) == 1,
        bit_of(x, a as u32),
        bit_of(x, b as u32),
    ensures
        a == b,
{
    if a < b {
        lemma_bit_count_two(x, a, b, 128);
    } else if b < a {
        lemma_bit_count_two(x, b, a, 128);
    }
}

/// All bytes are ASCII.
pub open spec fn ascii_bytes(bytes: Seq<u8>) -> bool {
    forall|k: int| 0 <= k < bytes.len() ==> #[trigger] bytes[k] < 128
}

/// Whether all bytes are ASCII.
fn all_ascii(bytes: &[u8]) -> (r: bool)
    ensures
        r == ascii_bytes(bytes@),
{
    let mut i: usize = 0;
    while i < bytes.len()
        invariant
            i <= bytes@.len(),
            forall|k: int| 0 <= k < i ==> #[trigger] bytes@[k] < 128,
        decreases bytes@.len() - i,
    {
        if bytes[i] >= 128 {
            return false;
        }
        i = i + 1;
    }
    true
}

/// A single-character node accepts, among ASCII words, only its character.
proof fn lemma_single_byte_accepts(t: NodeTable, n: int, b: u8, w: Seq<char>)
    requires
        table_wf(t),
        single_byte_node(t, n, b),
        accepts(t, n, w),
        ascii_word(w),
    ensures
        w.len() == 1,
        w[0] == byte_char(b),
{
    assert(n != 2) by {
        assert(t[2] == NodeView::<CharSetView>::And(Seq::empty()));
    }
    if let NodeView::Singleton(cs) = t[n] {
        assert((w[0] as u32) < 128);
        lemma_single_bit(cs.0, w[0] as u32 as int, b as int);
        vstd::utf8::char_u32_cast(w[0], w[0] as u32);
        vstd::utf8::char_u32_cast(byte_char(b), b as u32);
    }
}

/// An ASCII word accepted by the start of a literal chain begins with the
/// chain's characters.
proof fn lemma_chain_sound(t: NodeTable, n: int, p: Seq<u8>, target: int, w: Seq<char>)
    requires
        table_wf(t),
        literal_chain(t, n, p, target),
        accepts(t, n, w),
        ascii_word(w),
    ensures
        p.len() <= w.len(),
        w.subrange(0, p.len() as int) == byte_chars(p),
    decreases p.len(),
{
    if p.len() == 0 {
        assert(w.subrange(0, 0) =~= byte_chars(p));
    } else {
        if let NodeView::Concat { head, tail } = t[n] {
            assert(n != 2) by {
                assert(t[2] == NodeView::<CharSetView>::And(Seq::empty()));
            }
            assert(node_ok(t[n], n));
            let i = choose|i: int|
                0 <= i <= w.len() && accepts(t, head as int, #[trigger] w.subrange(0, i)) && accepts(
                    t,
                    tail as int,
                    w.subrange(i, w.len() as int),
                );
            let w1 = w.subrange(0, i);
            let w2 = w.subrange(i, w.len() as int);
            assert(ascii_word(w1)) by {
                assert forall|k: int| 0 <= k < w1.len() implies (#[trigger] w1[k] as u32) < 128 by {
                    assert(w1[k] == w[k]);
                }
            }
            assert(ascii_word(w2)) by {
                assert forall|k: int| 0 <= k < w2.len() implies (#[trigger] w2[k] as u32) < 128 by {
                    assert(w2[k] == w[i + k]);
                }
            }
            lemma_single_byte_accepts(t, head as int, p[0], w1);
            lemma_chain_sound(t, tail as int, p.drop_first(), target, w2);
            assert(w.subrange(0, p.len() as int) =~= byte_chars(p)) by {
                assert forall|k: int| 0 <= k < p.len() implies w.subrange(0, p.len() as int)[k] == #[trigger] byte_chars(
                    p,
                )[k] by {
                    if k == 0 {
                        assert(w[0] == w1[0]);
                    } else {
                        assert(w[k] == w2[k - 1]);
                        assert(w2.subrange(0, p.drop_first().len() as int)[k - 1] == byte_chars(p.drop_first())[k - 1]);
                        assert(p.drop_first()[k - 1] == p[k]);
                    }
                }
            }
        }
    }
}

/// An ASCII word accepted by a root with a literal prefix begins with it.
pub proof fn lemma_prefix_sound(t: NodeTable, root: int, p: Seq<u8>, w: Seq<char>)
    requires
        table_wf(t),
        literal_prefix_of(t, root, p),
        accepts(t, root, w),
        ascii_word(w),
    ensures
        p.len() <= w.len(),
        w.subrange(0, p.len() as int) == byte_chars(p),
{
    if exists|target: int| literal_chain(t, root, p, target) {
        let target = choose|target: int| literal_chain(t, root, p, target);
        lemma_chain_sound(t, root, p, target, w);
    } else {
        lemma_single_byte_accepts(t, root, p[0], w);
        assert(w.subrange(0, 1) =~= byte_chars(p));
    }
}

/// The character of a byte determines the byte.
proof fn lemma_byte_char_inj(a: u8, b: u8)
    requires
        byte_char(a) == byte_char(b),
    ensures
        a == b,
{
    vstd::utf8::char_u32_cast(byte_char(a), a as u32);
    vstd::utf8::char_u32_cast(byte_char(b), b as u32);
}

/// The characters of bytes determine the bytes.
proof fn lemma_byte_chars_inj(x: Seq<u8>, y: Seq<u8>)
    requires
        byte_chars(x) == byte_chars(y),
    ensures
        x == y,
{
    assert(x.len() == byte_chars(x).len());
    assert(y.len() == byte_chars(y).len());
    assert forall|k: int| 0 <= k < x.len() implies x[k] == y[k] by {
        assert(byte_chars(x)[k] == byte_chars(y)[k]);
        assert(byte_chars(x)[k] == byte_char(x[k]));
        assert(byte_chars(y)[k] == byte_char(y[k]));
        lemma_byte_char_inj(x[k], y[k]);
    }
    assert(x =~= y);
}

/// The word of a non-empty stretch of ASCII bytes: ASCII, beginning with
/// the character of the first byte.
proof fn lemma_match_word(bytes: Seq<u8>, q: int, e: int)
    requires
        0 <= q < e <= bytes.len(),
        ascii_bytes(bytes),
    ensures
        byte_chars(bytes.subrange(q, e)).len() == e - q,
        byte_chars(bytes.subrange(q, e))[0] == byte_char(bytes[q]),
        ascii_word(byte_chars(bytes.subrange(q, e))),
{
    let w = byte_chars(bytes.subrange(q, e));
    assert forall|k: int| 0 <= k < w.len() implies (#[trigger] w[k] as u32) < 128 by {
        assert(w[k] == byte_char(bytes[q + k]));
        assert(bytes[q + k] < 128);
        vstd::utf8::char_u32_cast(byte_char(bytes[q + k]), bytes[q + k] as u32);
    }
}

/// Without the empty word at the beginning, a plain root has no empty
/// match anywhere.
proof fn lemma_no_empty_match(t: NodeTable, root: int, bytes: Seq<u8>, q: int)
    requires
        table_wf(t),
        laws_apply(t, root),
        !nullable(t, LocationKind::Begin, root),
        0 <= q <= bytes.len(),
    ensures
        !matches_at(t, root, bytes, q, q),
{
    lemma_empty_match(t, root, bytes, q, LocationKind::Begin);
}

/// A position whose byte is ASCII and cannot begin a match, by the start
/// set, starts no match.
proof fn lemma_start_byte_excluded(t: NodeTable, root: int, bytes: Seq<u8>, q: int)
    requires
        table_wf(t),
        laws_apply(t, root),
        !nullable(t, LocationKind::Begin, root),
        0 <= q < bytes.len(),
        bytes[q] < 128,
        !bit_of(first_bytes(t, root), bytes[q] as u32),
    ensures
        forall|e: int| q <= e <= bytes.len() ==> !#[trigger] matches_at(t, root, bytes, q, e),
{
    assert forall|e: int| q <= e <= bytes.len() implies !#[trigger] matches_at(t, root, bytes, q, e) by {
        if e == q {
            lemma_no_empty_match(t, root, bytes, q);
        } else if matches_at(t, root, bytes, q, e) {
            let w = byte_chars(bytes.subrange(q, e));
            assert(w.len() == e - q);
            assert(w[0] == byte_char(bytes[q]));
            vstd::utf8::char_u32_cast(byte_char(bytes[q]), bytes[q] as u32);
            lemma_startset_sound(t, root, w);
        }
    }
}

/// A position where the literal prefix does not occur starts no match.
proof fn lemma_prefix_excluded(t: NodeTable, root: int, bytes: Seq<u8>, p: Seq<u8>, q: int)
    requires
        table_wf(t),
        search_laws_apply(t, root, bytes),
        !nullable(t, LocationKind::Begin, root),
        literal_prefix_of(t, root, p),
        0 <= q <= bytes.len(),
        !occurs_at(bytes, p, q),
    ensures
        forall|e: int| q <= e <= bytes.len() ==> !#[trigger] matches_at(t, root, bytes, q, e),
{
    assert forall|e: int| q <= e <= bytes.len() implies !#[trigger] matches_at(t, root, bytes, q, e) by {
        if e == q {
            lemma_no_empty_match(t, root, bytes, q);
        } else if matches_at(t, root, bytes, q, e) {
            lemma_match_word(bytes, q, e);
            let w = byte_chars(bytes.subrange(q, e));
            lemma_prefix_sound(t, root, p, w);
            assert(byte_chars(bytes.subrange(q, q + p.len())) =~= w.subrange(0, p.len() as int));
            lemma_byte_chars_inj(bytes.subrange(q, q + p.len()), p);
        }
    }
}

/// A match at a position where the literal prefix occurs is at least as
/// long as the prefix.
proof fn lemma_prefix_long(t: NodeTable, root: int, bytes: Seq<u8>, p: Seq<u8>, q: int, e: int)
    requires
        table_wf(t),
        search_laws_apply(t, root, bytes),
        !nullable(t, LocationKind::Begin, root),
        literal_prefix_of(t, root, p),
        0 <= q <= e <= bytes.len(),
        matches_at(t, root, bytes, q, e),
    ensures
        q + p.len() <= e,
{
    if e == q {
        lemma_no_empty_match(t, root, bytes, q);
    } else {
        lemma_match_word(bytes, q, e);
        lemma_prefix_sound(t, root, p, byte_chars(bytes.subrange(q, e)));
    }
}

/// No match before `p` stays so when the table grows.
proof fn lemma_none_before_extend(t1: NodeTable, t2: NodeTable, root: int, bytes: Seq<u8>, p: int)
    requires
        table_extends(t1, t2),
        0 <= root < t1.len(),
        none_before(t1, root, bytes, p),
    ensures
        none_before(t2, root, bytes, p),
{
    lemma_extend_all(t1, t2, root);
    assert forall|q: int, e: int| 0 <= q < p && q <= e <= bytes.len() && char_start(bytes, q) implies !#[trigger] matches_at(
        t2,
        root,
        bytes,
        q,
        e,
    ) by {
        assert(!matches_at(t1, root, bytes, q, e));
    }
}


/// Where the match laws apply in a grown table, they applied before, and
/// what held of no match before a position holds in the grown table.
proof fn lemma_search_shrink(t1: NodeTable, t2: NodeTable, root: int, bytes: Seq<u8>, p: int)
    requires
        table_extends(t1, t2),
        0 <= root < t1.len(),
        laws_apply(t2, root),
        laws_apply(t1, root) ==> none_before(t1, root, bytes, p),
    ensures
        laws_apply(t1, root),
        none_before(t2, root, bytes, p),
{
    lemma_extend_all(t1, t2, root);
    lemma_none_before_extend(t1, t2, root, bytes, p);
}

/// Positions from `start` to `stop` where the literal prefix does not occur
/// extend the stretch without a match.
proof fn lemma_skip_prefix(t: NodeTable, root: int, bytes: Seq<u8>, p: Seq<u8>, start: int, stop: int)
    requires
        table_wf(t),
        search_laws_apply(t, root, bytes),
        !nullable(t, LocationKind::Begin, root),
        literal_prefix_of(t, root, p),
        0 <= start <= stop <= bytes.len() + 1,
        none_before(t, root, bytes, start),
        forall|q: int| start <= q < stop ==> !#[trigger] occurs_at(bytes, p, q),
    ensures
        none_before(t, root, bytes, stop),
{
    assert forall|q: int, e: int| 0 <= q < stop && q <= e <= bytes.len() && char_start(bytes, q) implies !#[trigger] matches_at(
        t,
        root,
        bytes,
        q,
        e,
    ) by {
        if q >= start {
            assert(!occurs_at(bytes, p, q));
            lemma_prefix_excluded(t, root, bytes, p, q);
        }
    }
}

/// Positions from `start` to `stop` whose bytes are outside the start set
/// extend the stretch without a match.
proof fn lemma_skip_start_bytes(t: NodeTable, root: int, bytes: Seq<u8>, start: int, stop: int)
    requires
        table_wf(t),
        search_laws_apply(t, root, bytes),
        !nullable(t, LocationKind::Begin, root),
        0 <= start <= stop <= bytes.len(),
        none_before(t, root, bytes, start),
        forall|q: int| start <= q < stop ==> !#[trigger] bit_of(first_bytes(t, root), bytes[q] as u32),
    ensures
        none_before(t, root, bytes, stop),
{
    assert forall|q: int, e: int| 0 <= q < stop && q <= e <= bytes.len() && char_start(bytes, q) implies !#[trigger] matches_at(
        t,
        root,
        bytes,
        q,
        e,
    ) by {
        if q >= start {
            assert(!bit_of(first_bytes(t, root), bytes[q] as u32));
            assert(bytes[q] < 128);
            lemma_start_byte_excluded(t, root, bytes, q);
        }
    }
}

/// A position with no match extends the stretch without a match.
proof fn lemma_skip_one(t: NodeTable, root: int, bytes: Seq<u8>, q: int)
    requires
        none_before(t, root, bytes, q),
        forall|e: int| q <= e <= bytes.len() ==> !#[trigger] matches_at(t, root, bytes, q, e),
    ensures
        none_before(t, root, bytes, q + 1),
{
}

/// A root with a literal prefix does not take the empty word.
proof fn lemma_literal_not_nullable(t: NodeTable, root: int, p: Seq<u8>)
    requires
        table_wf(t),
        literal_prefix_of(t, root, p),
        p.len() > 0,
    ensures
        forall|loc: LocationKind| !#[trigger] nullable(t, loc, root),
{
    if exists|target: int| literal_chain(t, root, p, target) {
        let target = choose|target: int| literal_chain(t, root, p, target);
        assert(t[root] is Concat);
        if let NodeView::Concat { head, tail } = t[root] {
            assert(node_ok(t[root], root));
            assert(t[head as int] is Singleton);
            assert(head >= 7);
            assert(root >= 7);
            assert forall|loc: LocationKind| !#[trigger] nullable(t, loc, root) by {
                assert(!nullable(t, loc, head as int));
            }
        }
    } else {
        assert(t[root] is Singleton);
        assert(root >= 7);
    }
}

/// An occurrence in the part of `bytes` from `start` on is an occurrence
/// in `bytes`, and the other way round.
proof fn lemma_occurs_shift(bytes: Seq<u8>, p: Seq<u8>, start: int, q: int)
    requires
        0 <= start <= q,
        start <= bytes.len(),
    ensures
        occurs_at(bytes.subrange(start, bytes.len() as int), p, q - start) == occurs_at(bytes, p, q),
{
    if q + p.len() <= bytes.len() {
        assert(bytes.subrange(start, bytes.len() as int).subrange(q - start, q - start + p.len()) =~= bytes.subrange(
            q,
            q + p.len(),
        ));
    }
}

/// Positions whose bytes are not among the start bytes extend the stretch
/// without a match.
proof fn lemma_skip_non_start_bytes(
    t: NodeTable,
    root: int,
    bytes: Seq<u8>,
    sb: Seq<u8>,
    start: int,
    stop: int,
)
    requires
        table_wf(t),
        search_laws_apply(t, root, bytes),
        !nullable(t, LocationKind::Begin, root),
        forall|i: int| 0 <= i < 128 && #[trigger] bit_of(first_bytes(t, root), i as u32) ==> sb.contains(i as u8),
        0 <= start <= stop <= bytes.len(),
        none_before(t, root, bytes, start),
        forall|j: int| 0 <= j < stop - start ==> !sb.contains(#[trigger] bytes[start + j]),
    ensures
        none_before(t, root, bytes, stop),
{
    assert forall|q: int| start <= q < stop implies !#[trigger] bit_of(first_bytes(t, root), bytes[q] as u32) by {
        assert(bytes[start + (q - start)] == bytes[q]);
        assert(!sb.contains(bytes[q]));
        assert(bytes[q] < 128);
        if bit_of(first_bytes(t, root), bytes[q] as u32) {
            assert(sb.contains((bytes[q] as u32 as int) as u8));
        }
    }
    lemma_skip_start_bytes(t, root, bytes, start, stop);
}

/// Having no match in a stretch survives the growth of the table.
proof fn lemma_no_match_in_extend(t1: NodeTable, t2: NodeTable, root: int, bytes: Seq<u8>, a: int, b: int)
    requires
        table_extends(t1, t2),
        0 <= root < t1.len(),
        no_match_in(t1, root, bytes, a, b),
    ensures
        no_match_in(t2, root, bytes, a, b),
{
    lemma_extend_all(t1, t2, root);
    assert forall|q: int, e: int| a <= q < b && q <= e <= bytes.len() && char_start(bytes, q) implies !#[trigger] matches_at(
        t2,
        root,
        bytes,
        q,
        e,
    ) by {
        assert(!matches_at(t1, root, bytes, q, e));
    }
}

/// The gaps before the matches found so far, and the current gap up to
/// `start`, hold no match.
pub open spec fn gaps_ok(t: NodeTable, root: int, bytes: Seq<u8>, ms: Seq<Match>, start: int) -> bool {
    &&& forall|k: int|
        0 <= k < ms.len() ==> no_match_in(t, root, bytes, resume_at(ms, k), #[trigger] ms[k].start as int)
    &&& no_match_in(t, root, bytes, resume_at(ms, ms.len() as int), start)
}

/// The gaps survive the growth of the table.
proof fn lemma_gaps_extend(t1: NodeTable, t2: NodeTable, root: int, bytes: Seq<u8>, ms: Seq<Match>, start: int)
    requires
        table_extends(t1, t2),
        0 <= root < t1.len(),
        gaps_ok(t1, root, bytes, ms, start),
    ensures
        gaps_ok(t2, root, bytes, ms, start),
{
    assert forall|k: int| 0 <= k < ms.len() implies no_match_in(
        t2,
        root,
        bytes,
        resume_at(ms, k),
        #[trigger] ms[k].start as int,
    ) by {
        lemma_no_match_in_extend(t1, t2, root, bytes, resume_at(ms, k), ms[k].start as int);
    }
    lemma_no_match_in_extend(t1, t2, root, bytes, resume_at(ms, ms.len() as int), start);
}

/// Where the match laws apply in a grown table, they applied before, and
/// the gaps found before hold in the grown table.
proof fn lemma_gaps_shrink(t1: NodeTable, t2: NodeTable, root: int, bytes: Seq<u8>, ms: Seq<Match>, start: int)
    requires
        table_extends(t1, t2),
        0 <= root < t1.len(),
        laws_apply(t2, root),
        laws_apply(t1, root) ==> gaps_ok(t1, root, bytes, ms, start),
    ensures
        laws_apply(t1, root),
        gaps_ok(t2, root, bytes, ms, start),
{
    lemma_extend_all(t1, t2, root);
    lemma_gaps_extend(t1, t2, root, bytes, ms, start);
}

/// Recording a match found where the current gap ends: the next gap
/// starts where the search resumes.
proof fn lemma_gaps_push(t: NodeTable, root: int, bytes: Seq<u8>, ms: Seq<Match>, m: Match)
    requires
        gaps_ok(t, root, bytes, ms, m.start as int),
    ensures
        gaps_ok(t, root, bytes, ms.push(m), resume_at(ms.push(m), ms.len() as int + 1)),
{
    let ms2 = ms.push(m);
    assert forall|k: int| 0 <= k < ms2.len() implies no_match_in(
        t,
        root,
        bytes,
        resume_at(ms2, k),
        #[trigger] ms2[k].start as int,
    ) by {
        if k < ms.len() {
            assert(ms2[k] == ms[k]);
            assert(resume_at(ms2, k) == resume_at(ms, k));
        } else {
            assert(resume_at(ms2, k) == resume_at(ms, k));
        }
    }
}

/// Extends the current gap over positions where no match starts.
proof fn lemma_gap_grow(t: NodeTable, root: int, bytes: Seq<u8>, ms: Seq<Match>, start: int, stop: int)
    requires
        gaps_ok(t, root, bytes, ms, start),
        start <= stop,
        forall|q: int, e: int| start <= q < stop && q <= e <= bytes.len() ==> !#[trigger] matches_at(t, root, bytes, q, e),
    ensures
        gaps_ok(t, root, bytes, ms, stop),
{
}

/// In valid UTF-8, the current gap, grown past a position, reaches the next
/// position the search tries.
proof fn lemma_gap_step(t: NodeTable, root: int, bytes: Seq<u8>, ms: Seq<Match>, q: int)
    requires
        valid_utf8(bytes),
        0 <= q < bytes.len(),
        gaps_ok(t, root, bytes, ms, q + 1),
    ensures
        gaps_ok(t, root, bytes, ms, step_from(q, bytes[q], bytes.len() as int)),
{
    if !is_continuation_byte(bytes[q]) {
        lemma_char_tail(bytes, q);
        assert forall|k: int| q < k < step_from(q, bytes[q], bytes.len() as int) implies !char_start(bytes, k) by {
            assert(is_continuation_byte(bytes[k]));
        }
    }
}

/// No match starts where the literal prefix does not occur.
proof fn lemma_prefix_gap(t: NodeTable, root: int, bytes: Seq<u8>, p: Seq<u8>, start: int, stop: int)
    requires
        table_wf(t),
        search_laws_apply(t, root, bytes),
        !nullable(t, LocationKind::Begin, root),
        literal_prefix_of(t, root, p),
        0 <= start <= stop <= bytes.len() + 1,
        forall|q: int| start <= q < stop ==> !#[trigger] occurs_at(bytes, p, q),
    ensures
        forall|q: int, e: int| start <= q < stop && q <= e <= bytes.len() ==> !#[trigger] matches_at(t, root, bytes, q, e),
{
    assert forall|q: int, e: int| start <= q < stop && q <= e <= bytes.len() implies !#[trigger] matches_at(
        t,
        root,
        bytes,
        q,
        e,
    ) by {
        assert(!occurs_at(bytes, p, q));
        lemma_prefix_excluded(t, root, bytes, p, q);
    }
}

/// No match starts at a byte outside the start bytes.
proof fn lemma_start_bytes_gap(t: NodeTable, root: int, bytes: Seq<u8>, sb: Seq<u8>, start: int, stop: int)
    requires
        table_wf(t),
        search_laws_apply(t, root, bytes),
        !nullable(t, LocationKind::Begin, root),
        forall|i: int| 0 <= i < 128 && #[trigger] bit_of(first_bytes(t, root), i as u32) ==> sb.contains(i as u8),
        0 <= start <= stop <= bytes.len(),
        forall|j: int| 0 <= j < stop - start ==> !sb.contains(#[trigger] bytes[start + j]),
    ensures
        forall|q: int, e: int| start <= q < stop && q <= e <= bytes.len() ==> !#[trigger] matches_at(t, root, bytes, q, e),
{
    assert forall|q: int, e: int| start <= q < stop && q <= e <= bytes.len() implies !#[trigger] matches_at(
        t,
        root,
        bytes,
        q,
        e,
    ) by {
        assert(bytes[start + (q - start)] == bytes[q]);
        assert(!sb.contains(bytes[q]));
        assert(bytes[q] < 128);
        if bit_of(first_bytes(t, root), bytes[q] as u32) {
            assert(sb.contains((bytes[q] as u32 as int) as u8));
        }
        lemma_start_byte_excluded(t, root, bytes, q);
    }
}

// ---------------------------------------------------------------------------
// The search results in the pattern's own terms.

/// The stretch of `bytes` from `i` to `j` is a word of `l`.
pub open spec fn holds_at(l: Lang, bytes: Seq<u8>, i: int, j: int) -> bool {
    l(byte_chars(bytes.subrange(i, j)))
}

/// `m` is a stretch that `l` holds, and no longer stretch from its start
/// does.
pub open spec fn longest_in(l: Lang, bytes: Seq<u8>, m: Match) -> bool {
    &&& m.start <= m.end <= bytes.len()
    &&& holds_at(l, bytes, m.start as int, m.end as int)
    &&& forall|e: int| m.end < e <= bytes.len() ==> !#[trigger] holds_at(l, bytes, m.start as int, e)
}

/// No stretch that `l` holds starts from `a` up to, not including, `b`.
pub open spec fn none_held(l: Lang, bytes: Seq<u8>, a: int, b: int) -> bool {
    forall|q: int, e: int| a <= q < b && q <= e <= bytes.len() ==> !#[trigger] holds_at(l, bytes, q, e)
}

/// `r` is the leftmost-longest stretch that `l` holds, or `None` where
/// `l` holds none.
pub open spec fn leftmost_longest(l: Lang, bytes: Seq<u8>, r: Option<Match>) -> bool {
    match r {
        Some(m) => longest_in(l, bytes, m) && none_held(l, bytes, 0, m.start as int),
        None => none_held(l, bytes, 0, bytes.len() as int + 1),
    }
}

/// `ms` are the successive leftmost-longest stretches that `l` holds, each
/// searched for from where the one before ended (one further after an
/// empty one), up to the end of the input.
pub open spec fn all_leftmost_longest(l: Lang, bytes: Seq<u8>, ms: Seq<Match>) -> bool {
    &&& forall|k: int| 0 <= k < ms.len() ==> longest_in(l, bytes, #[trigger] ms[k])
    &&& forall|k: int| 0 <= k < ms.len() ==> none_held(l, bytes, resume_at(ms, k), #[trigger] ms[k].start as int)
    &&& none_held(l, bytes, resume_at(ms, ms.len() as int), bytes.len() as int + 1)
}

/// The first of the successive leftmost-longest stretches is the
/// leftmost-longest stretch: what `find_all` lists first is what `find`
/// returns, and `find_all` lists nothing exactly when `find` finds nothing.
pub proof fn lemma_first_of_all(l: Lang, bytes: Seq<u8>, ms: Seq<Match>, r: Option<Match>)
    requires
        all_leftmost_longest(l, bytes, ms),
        leftmost_longest(l, bytes, r),
    ensures
        ms.len() > 0 ==> r == Some(ms[0]),
        ms.len() == 0 ==> r is None,
{
    if ms.len() > 0 {
        let m0 = ms[0];
        assert(longest_in(l, bytes, m0));
        assert(none_held(l, bytes, resume_at(ms, 0), ms[0].start as int));
        match r {
            Some(m) => {
                if m.start < m0.start {
                    assert(holds_at(l, bytes, m.start as int, m.end as int));
                } else if m.start > m0.start {
                    assert(holds_at(l, bytes, m0.start as int, m0.end as int));
                } else if m.end < m0.end {
                    assert(holds_at(l, bytes, m.start as int, m0.end as int));
                } else if m.end > m0.end {
                    assert(holds_at(l, bytes, m0.start as int, m.end as int));
                }
            },
            None => {
                assert(holds_at(l, bytes, m0.start as int, m0.end as int));
            },
        }
    } else {
        if let Some(m) = r {
            assert(holds_at(l, bytes, m.start as int, m.end as int));
        }
    }
}

/// For a pattern that is `^` followed by a plain pattern, what `find`
/// returns is the one match that `find_all` lists, and `find_all` lists
/// none exactly when `find` finds none: both give the longest prefix of the
/// input that the plain pattern accepts. The two searches may have grown
/// the table in either order.
pub proof fn lemma_begin_find_is_first_of_find_all(
    t1: NodeTable,
    t2: NodeTable,
    root: int,
    bytes: Seq<u8>,
    r: Option<Match>,
    ms: Seq<Match>,
)
    requires
        table_extends(t1, t2) || table_extends(t2, t1),
        table_wf(t1),
        table_wf(t2),
        0 <= root < t1.len(),
        root < t2.len(),
        begin_form(t1, root),
        found(t1, root, bytes, r),
        begin_search_result(t1, root, bytes, r),
        ordered_matches(ms, bytes.len() as int),
        begin_all_result(t2, root, bytes, ms),
    ensures
        ms.len() > 0 ==> r == Some(ms[0]) && ms.len() == 1,
        ms.len() == 0 ==> r is None,
{
    if table_extends(t1, t2) {
        lemma_begin_extend(t1, t2, root, bytes);
        assert(begin_all_result(t1, root, bytes, ms) == begin_all_result(t2, root, bytes, ms)) by {
            if ms.len() == 1 {
                assert(begin_search_result(t2, root, bytes, Some(ms[0])) == begin_search_result(t1, root, bytes, Some(ms[0])));
            }
        }
    } else {
        lemma_begin_extend(t2, t1, root, bytes);
        assert(begin_all_result(t1, root, bytes, ms) == begin_all_result(t2, root, bytes, ms)) by {
            if ms.len() == 1 {
                assert(begin_search_result(t2, root, bytes, Some(ms[0])) == begin_search_result(t1, root, bytes, Some(ms[0])));
            }
        }
    }
    let p = t1[root]->tail as int;
    if ms.len() > 0 {
        let m0 = ms[0];
        assert(longest_match(t1, p, bytes, m0));
        match r {
            Some(m) => {
                assert(longest_match(t1, p, bytes, m));
                if m.end < m0.end {
                    assert(!matches_at(t1, p, bytes, 0, m0.end as int));
                } else if m.end > m0.end {
                    assert(!matches_at(t1, p, bytes, 0, m.end as int));
                }
            },
            None => {
                assert(!matches_at(t1, p, bytes, 0, m0.end as int));
            },
        }
    } else {
        if let Some(m) = r {
            assert(!matches_at(t1, p, bytes, 0, m.end as int));
        }
    }
}

/// For a pattern ending in `$`, what `find` returns is the first match that
/// `find_all` lists, and `find_all` lists none exactly when `find` finds
/// none: both begin at the first character start from which the pattern
/// accepts the rest of the input, and run to its end. The two searches may
/// have grown the table in either order.
pub proof fn lemma_end_find_is_first_of_find_all(
    t1: NodeTable,
    t2: NodeTable,
    root: int,
    bytes: Seq<u8>,
    r: Option<Match>,
    ms: Seq<Match>,
)
    requires
        table_extends(t1, t2) || table_extends(t2, t1),
        table_wf(t1),
        table_wf(t2),
        0 <= root < t1.len(),
        root < t2.len(),
        end_form(t1, root),
        end_search_result(t1, root, bytes, r),
        ordered_matches(ms, bytes.len() as int),
        end_matches_upto(t2, root, bytes, ms, bytes.len() as int + 1),
        ms.len() > 0 ==> char_start(bytes, ms[0].start as int),
    ensures
        ms.len() > 0 ==> r == Some(ms[0]),
        ms.len() == 0 ==> r is None,
{
    if table_extends(t1, t2) {
        lemma_end_extend(t1, t2, root);
    } else {
        lemma_end_extend(t2, t1, root);
    }
    let n = bytes.len() as int;
    assert(resume_at(ms, 0) == 0);
    if ms.len() > 0 {
        let m0 = ms[0];
        assert(m0.end == n);
        assert(no_end_match_in(t2, root, bytes, 0, m0.start as int));
        let w0 = byte_chars(bytes.subrange(m0.start as int, n));
        assert(end_accepts(t2, root, w0));
        assert(end_accepts(t1, root, w0));
        match r {
            Some(m) => {
                let w = byte_chars(bytes.subrange(m.start as int, n));
                assert(end_accepts(t1, root, w));
                assert(end_accepts(t2, root, w));
                if m.start < m0.start {
                    assert(!end_accepts(t2, root, w));
                } else if m.start > m0.start {
                    assert(no_end_match_before(t1, root, bytes, m.start as int));
                    assert(!end_accepts(t1, root, w0));
                }
            },
            None => {
                assert(no_end_match_before(t1, root, bytes, n + 1));
                assert(!end_accepts(t1, root, w0));
            },
        }
    } else {
        assert(no_end_match_in(t2, root, bytes, 0, n + 1));
        if let Some(m) = r {
            let w = byte_chars(bytes.subrange(m.start as int, n));
            assert(end_accepts(t1, root, w));
            assert(end_accepts(t2, root, w));
        }
    }
}

/// What `find` returns is the first match that `find_all` lists, and
/// `find_all` lists none exactly when `find` finds none: for a root without
/// anchors or lookarounds, over any input, both begin with the
/// leftmost-longest match among those at character starts. The two
/// searches may have grown the table in either order.
#[verifier::rlimit(50)]
#[verifier::spinoff_prover]
pub proof fn lemma_find_is_first_of_find_all(
    t1: NodeTable,
    t2: NodeTable,
    root: int,
    bytes: Seq<u8>,
    r: Option<Match>,
    ms: Seq<Match>,
)
    requires
        table_extends(t1, t2) || table_extends(t2, t1),
        laws_apply(t1, root),
        laws_apply(t2, root),
        found(t1, root, bytes, r),
        leftmost(t1, root, bytes, r),
        r matches Some(m) ==> char_start(bytes, m.start as int),
        ordered_matches(ms, bytes.len() as int),
        all_longest(t2, root, bytes, ms),
        each_leftmost(t2, root, bytes, ms),
        ms.len() > 0 ==> char_start(bytes, ms[0].start as int),
    ensures
        ms.len() > 0 ==> r == Some(ms[0]),
        ms.len() == 0 ==> r is None,
{
    if table_extends(t1, t2) {
        lemma_extend_all(t1, t2, root);
    } else {
        lemma_extend_all(t2, t1, root);
    }
    assert(resume_at(ms, 0) == 0);
    if ms.len() > 0 {
        let m0 = ms[0];
        assert(longest_match(t2, root, bytes, m0));
        assert(no_match_in(t2, root, bytes, 0, m0.start as int));
        assert(matches_at(t1, root, bytes, m0.start as int, m0.end as int));
        match r {
            Some(m) => {
                assert(matches_at(t2, root, bytes, m.start as int, m.end as int));
                if m.start < m0.start {
                    assert(false);
                } else if m.start > m0.start {
                    assert(false);
                } else if m.end < m0.end {
                    assert(matches_at(t1, root, bytes, m.start as int, m0.end as int));
                    assert(false);
                } else if m.end > m0.end {
                    assert(matches_at(t2, root, bytes, m0.start as int, m.end as int));
                    assert(false);
                }
            },
            None => {
                assert(false);
            },
        }
    } else {
        assert(no_match_in(t2, root, bytes, 0, bytes.len() as int + 1));
        if let Some(m) = r {
            assert(matches_at(t2, root, bytes, m.start as int, m.end as int));
            assert(false);
        }
    }
}

/// A stretch of ASCII bytes reads as an ASCII word.
proof fn lemma_stretch_ascii(bytes: Seq<u8>, i: int, j: int)
    requires
        ascii_bytes(bytes),
        0 <= i <= j <= bytes.len(),
    ensures
        ascii_word(byte_chars(bytes.subrange(i, j))),
{
    if i < j {
        lemma_match_word(bytes, i, j);
    }
}

/// Where the root means `l`, a match over ASCII bytes is a stretch that
/// `l` holds, and the other way round.
pub proof fn lemma_match_means(t: NodeTable, root: int, l: Lang, bytes: Seq<u8>, i: int, j: int)
    requires
        node_means(t, root, Some(l)),
        ascii_bytes(bytes),
        0 <= i <= j <= bytes.len(),
    ensures
        matches_at(t, root, bytes, i, j) == holds_at(l, bytes, i, j),
{
    lemma_stretch_ascii(bytes, i, j);
}

/// The meaning of a regex's root, where it holds, survives a search.
proof fn lemma_meaning_survives(re0: Regex, re1: Regex, l: Lang)
    requires
        search_step(re0, re1),
        re0.wf(),
        node_means(re0.table(), re0.root_id(), Some(l)),
    ensures
        node_means(re1.table(), re1.root_id(), Some(l)),
{
    lemma_means_extend(re0.table(), re1.table(), re0.root_id(), Some(l));
}

/// What `find` promises, read in the pattern's terms: for a regex whose
/// root means `l` (as `Regex::new` establishes for a pattern without
/// anchors, lookarounds or word boundaries), over
/// ASCII input and while the table has room, `find` returns the
/// leftmost-longest stretch that `l` holds, or `None` where it holds none,
/// as long as no more states have been built than the state limit allows.
pub proof fn lemma_find_means(re0: Regex, re1: Regex, l: Lang, bytes: Seq<u8>, r: Option<Match>)
    requires
        re0.wf(),
        search_step(re0, re1),
        re1.table().len() < NODE_LIMIT,
        node_means(re0.table(), re0.root_id(), Some(l)),
        ascii_bytes(bytes),
        re1.state_count() <= re1.state_limit(),
        found(re1.table(), re1.root_id(), bytes, r),
        re1.state_count() <= re1.state_limit() && laws_apply(re1.table(), re1.root_id()) ==> leftmost(
            re1.table(),
            re1.root_id(),
            bytes,
            r,
        ),
    ensures
        leftmost_longest(l, bytes, r),
{
    lemma_meaning_survives(re0, re1, l);
    let t = re1.table();
    let root = re1.root_id();
    assert(laws_apply(t, root));
    assert forall|q: int, e: int| 0 <= q <= e <= bytes.len() implies #[trigger] holds_at(l, bytes, q, e) == matches_at(
        t,
        root,
        bytes,
        q,
        e,
    ) by {
        lemma_match_means(t, root, l, bytes, q, e);
    }
}

/// What `find_all` promises, read in the pattern's terms: under the same
/// conditions as `lemma_find_means`, its matches are the successive
/// leftmost-longest stretches that `l` holds.
pub proof fn lemma_find_all_means(re0: Regex, re1: Regex, l: Lang, bytes: Seq<u8>, ms: Seq<Match>)
    requires
        re0.wf(),
        search_step(re0, re1),
        re1.table().len() < NODE_LIMIT,
        node_means(re0.table(), re0.root_id(), Some(l)),
        ascii_bytes(bytes),
        ordered_matches(ms, bytes.len() as int),
        all_longest(re1.table(), re1.root_id(), bytes, ms),
        re1.state_count() <= re1.state_limit(),
        re1.state_count() <= re1.state_limit() && laws_apply(re1.table(), re1.root_id()) ==> each_leftmost(
            re1.table(),
            re1.root_id(),
            bytes,
            ms,
        ),
    ensures
        all_leftmost_longest(l, bytes, ms),
{
    lemma_meaning_survives(re0, re1, l);
    let t = re1.table();
    let root = re1.root_id();
    assert(laws_apply(t, root));
    assert forall|q: int, e: int| 0 <= q <= e <= bytes.len() implies #[trigger] holds_at(l, bytes, q, e) == matches_at(
        t,
        root,
        bytes,
        q,
        e,
    ) by {
        lemma_match_means(t, root, l, bytes, q, e);
    }
    assert forall|k: int| 0 <= k < ms.len() implies longest_in(l, bytes, #[trigger] ms[k]) by {
        assert(longest_match(t, root, bytes, ms[k]));
        assert(ms[k].start <= ms[k].end <= bytes.len());
    }
}

/// What `is_match` promises, read in the pattern's terms: under the same
/// conditions as `lemma_find_means`, it answers whether `l` holds some
/// stretch of the input.
pub proof fn lemma_is_match_means(re0: Regex, re1: Regex, l: Lang, bytes: Seq<u8>, r: bool)
    requires
        re0.wf(),
        search_step(re0, re1),
        re1.table().len() < NODE_LIMIT,
        node_means(re0.table(), re0.root_id(), Some(l)),
        ascii_bytes(bytes),
        r && laws_apply(re1.table(), re1.root_id()) ==> exists|i: int, j: int|
            0 <= i <= j <= bytes.len() && #[trigger] matches_at(re1.table(), re1.root_id(), bytes, i, j),
        re1.state_count() <= re1.state_limit(),
        !r && re1.state_count() <= re1.state_limit() && laws_apply(re1.table(), re1.root_id())
            ==> none_before(re1.table(), re1.root_id(), bytes, bytes.len() as int + 1),
    ensures
        r == exists|i: int, j: int| 0 <= i <= j <= bytes.len() && #[trigger] holds_at(l, bytes, i, j),
{
    lemma_meaning_survives(re0, re1, l);
    let t = re1.table();
    let root = re1.root_id();
    assert(laws_apply(t, root));
    assert forall|q: int, e: int| 0 <= q <= e <= bytes.len() implies #[trigger] holds_at(l, bytes, q, e) == matches_at(
        t,
        root,
        bytes,
        q,
        e,
    ) by {
        lemma_match_means(t, root, l, bytes, q, e);
    }
    if r {
        let (i, j) = choose|i: int, j: int| 0 <= i <= j <= bytes.len() && #[trigger] matches_at(t, root, bytes, i, j);
        assert(holds_at(l, bytes, i, j));
    }
}

} // verus!

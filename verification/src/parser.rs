//! The pattern parser: a recursive descent over the characters of the
//! pattern that builds nodes through the builder. Besides the usual syntax it
//! reads `&` (intersection), `~(...)` (complement) and `_` (any character).

use vstd::prelude::*;
use vstd::string::StringExecFns;
use crate::builder::RegexBuilder;
use crate::charset::{in_range, view_contains, CharSet, CharSetView};
use crate::semantics::{all_below, table_extends, NodeTable};
use crate::types::RegexNodeId;
use crate::types::node_id;
use crate::builder::NODE_LIMIT;
use crate::semantics::{holds_at, lemma_holds_or_two, lemma_lookahead_char, lemma_lookbehind_char, node_ok, table_wf};
use crate::builder::{or_members, or_piece, or_result};
use crate::types::NodeView;
use crate::semantics::{
    accepts, all_accept, all_complement_free, all_plain, any_accepts, complement_free, concat_all_accepts, loop_accepts,
    plain,
};
use crate::meaning::{
    no_complement,
    pattern_lang,
    char_lang, not_lang,
    rep_lang, repeat_counts, count_value,
    concat_lang, quantified_lang, atom_lang, flag_group_lang, cat_lang, concat_with, lemma_concat_with_extend,
    lemma_concat_with_push, lemma_concat_with_end, eps_lang,
    alternation_lang, alternation_rest_lang, intersection_lang, intersection_rest_lang, group_lang, node_means,
    lemma_means_extend, Lang, none_lang, or_lang, all_lang, and_lang,
    ascii_word, class_escape_member, class_items_member, class_member, escape_is_anchor, escape_member,
};
use crate::grammar::{
    alternation_rest_scan, alternation_scan, atom_scan, concat_scan, group_scan, intersection_rest_scan,
    intersection_scan, quantified_scan, pattern_scan, flag_group_scan,
    class_item_scan, class_items_scan, class_scan, escape_scan, posix_name_scan, posix_name_start, posix_scan, at,
    digits_end, expect_scan, flags_scan, number_scan, repeat_scan, Scan, is_flag_char,
    expected_end_text, expected_found_text, is_digit, spec_is_metachar, unexpected_metachar_text, unknown_flag_text,
    unknown_posix_text,
};

verus! {

/// A parse error: what went wrong and at which character.
#[derive(Debug, Clone, PartialEq, Eq)]
pub struct ParseError {
    pub message: String,
    pub position: usize,
}

/// The decimal digits of `n`, most significant first, without leading
/// zeros (`"0"` for zero).
pub open spec fn decimal_chars(n: nat) -> Seq<char>
    decreases n,
{
    if n < 10 {
        seq![(('0' as u32) + n) as char]
    } else {
        decimal_chars(n / 10).push((('0' as u32) + n % 10) as char)
    }
}

/// `usize::to_string`: the decimal digits of `n`.
#[verifier::external_body]
fn decimal_text(n: usize) -> (r: String)
    ensures
        r@ == decimal_chars(n as nat),
{
    n.to_string()
}

/// `char::to_string`: the one-character string of `c`.
#[verifier::external_body]
fn char_text(c: char) -> (r: String)
    ensures
        r@ == seq![c],
{
    c.to_string()
}

/// The text of a parse error: its position in decimal, then its message.
fn parse_error_text(position: usize, message: &String) -> (r: String)
    ensures
        r@ == "Parse error at position "@ + decimal_chars(position as nat) + ": "@ + message@,
{
    let mut text = "Parse error at position ".to_owned();
    text.append(decimal_text(position).as_str());
    text.append(": ");
    text.append(message.as_str());
    text
}

impl ParseError {
    /// The error as text: `Parse error at position <position>: <message>`.
    pub fn to_string(&self) -> (r: String)
        ensures
            r@ == "Parse error at position "@ + decimal_chars(self.position as nat) + ": "@ + self.message@,
    {
        parse_error_text(self.position, &self.message)
    }
}

/// The message for a character other than the one expected.
fn expected_found_message(expected: char, found: char) -> (r: String)
    ensures
        r@ == expected_found_text(expected, found),
{
    let mut text = "Expected '".to_owned();
    text.append(char_text(expected).as_str());
    text.append("', found '");
    text.append(char_text(found).as_str());
    text.append("'");
    text
}

/// The message for an input that ends where a character was expected.
fn expected_end_message(expected: char) -> (r: String)
    ensures
        r@ == expected_end_text(expected),
{
    let mut text = "Expected '".to_owned();
    text.append(char_text(expected).as_str());
    text.append("', found end of input");
    text
}

/// The message for an unknown flag character.
fn unknown_flag_message(c: char) -> (r: String)
    ensures
        r@ == unknown_flag_text(c),
{
    let mut text = "Unknown flag character '".to_owned();
    text.append(char_text(c).as_str());
    text.append("'");
    text
}

/// The message for a metacharacter where an atom was expected.
fn unexpected_metachar_message(c: char) -> (r: String)
    ensures
        r@ == unexpected_metachar_text(c),
{
    let mut text = "Unexpected metacharacter '".to_owned();
    text.append(char_text(c).as_str());
    text.append("'");
    text
}

/// The message for an unknown POSIX class name.
fn unknown_posix_message(name: &Vec<char>) -> (r: String)
    ensures
        r@ == unknown_posix_text(name@),
{
    let mut text = "Unknown POSIX class '".to_owned();
    let ghost start = text@;
    let mut i: usize = 0;
    while i < name.len()
        invariant
            i <= name@.len(),
            text@ == start + name@.subrange(0, i as int),
            start == "Unknown POSIX class '"@,
        decreases name@.len() - i,
    {
        text.append(char_text(name[i]).as_str());
        proof {
            assert(name@.subrange(0, i + 1) =~= name@.subrange(0, i as int).push(name@[i as int]));
            assert(start + name@.subrange(0, i + 1) =~= start + name@.subrange(0, i as int) + seq![name@[i as int]]);
        }
        i = i + 1;
    }
    proof {
        assert(name@.subrange(0, name@.len() as int) =~= name@);
    }
    text.append("'");
    text
}

/// The characters of a string, in order.
fn collect_chars(input: &str) -> (r: Vec<char>)
    ensures
        r@ == input@,
{
    broadcast use vstd::string::axiom_spec_iter;
    let mut v: Vec<char> = Vec::new();
    for c in it: input.chars()
        invariant
            v@ == it.seq().take(it.index() as int),
    {
        v.push(c);
        proof {
            assert(v@ =~= it.seq().take(it.index() as int + 1));
        }
    }
    v
}

/// Whether `c` is a metacharacter.
pub fn is_metachar(c: char) -> (r: bool)
    ensures
        r == spec_is_metachar(c),
{
    matches!(c, '*' | '+' | '?' | '{' | '}' | '|' | '&' | '(' | ')' | '[' | ']')
}

/// The decimal value of a run of ASCII digits.
pub open spec fn decimal_value(ds: Seq<char>) -> nat
    decreases ds.len(),
{
    if ds.len() == 0 {
        0
    } else {
        decimal_value(ds.drop_last()) * 10 + ((ds.last() as u32) - ('0' as u32)) as nat
    }
}

/// The word characters of `\w`: ASCII letters, digits and `_`.
pub open spec fn is_word_char(c: char) -> bool {
    ('a' <= c <= 'z') || ('A' <= c <= 'Z') || ('0' <= c <= '9') || c == '_'
}

/// The whitespace characters of `\s`.
pub open spec fn is_space_char(c: char) -> bool {
    c == ' ' || c == '\t' || c == '\n' || c == '\r' || c == '\x0C'
}

/// A regex pattern parser.
pub struct Parser {
    chars: Vec<char>,
    position: usize,
    builder: RegexBuilder<CharSet>,
}

/// The node that the atom at `p` stands for in any table, and where the atom
/// ends: the anchors `^` and `$`, and the flag group `(?m)`, which changes
/// nothing.
pub open spec fn fixed_atom(s: Seq<char>, p: int) -> Option<(RegexNodeId, int)> {
    if 0 <= p < s.len() && s[p] == '^' {
        Some((node_id::BEGIN_ANCHOR, p + 1))
    } else if 0 <= p < s.len() && s[p] == '$' {
        Some((node_id::END_ANCHOR, p + 1))
    } else if 0 <= p && p + 4 <= s.len() && s[p] == '(' && s[p + 1] == '?' && s[p + 2] == 'm' && s[p + 3] == ')' {
        Some((node_id::EPS, p + 4))
    } else {
        None
    }
}

/// The rest of the pattern from `p` is one such atom, and its node.
pub open spec fn lone_fixed_atom(s: Seq<char>, p: int) -> Option<RegexNodeId> {
    match fixed_atom(s, p) {
        Some((id, e)) => if e == s.len() {
            Some(id)
        } else {
            None
        },
        None => None,
    }
}

/// The character at `i` of `s` exists and is a word character: an ASCII
/// letter, a digit or `_`.
pub open spec fn word_at(s: Seq<char>, i: int) -> bool {
    0 <= i < s.len() && (('a' <= s[i] <= 'z') || ('A' <= s[i] <= 'Z') || ('0' <= s[i] <= '9') || s[i] == '_')
}

/// `t1` extends `t0` and `t2` extends `t1`, so `t2` extends `t0`.
proof fn lemma_extends_trans(t0: NodeTable, t1: NodeTable, t2: NodeTable)
    requires
        table_extends(t0, t1),
        table_extends(t1, t2),
    ensures
        table_extends(t0, t2),
{
}

/// A lookaround whose node takes exactly one word character asserts, looking
/// back, that a word character comes before `p`, and looking ahead, that one
/// comes after it.
proof fn lemma_word_look(t: NodeTable, id: int, cs: CharSetView, s: Seq<char>, p: int)
    requires
        0 <= id < t.len(),
        t[id] is LookAround,
        forall|w: Seq<char>| #[trigger] accepts(t, t[id]->LookAround_node as int, w) == (w.len() == 1 && view_contains(cs, w[0])),
        forall|d: char| view_contains(cs, d) <==> (('a' <= d <= 'z') || ('A' <= d <= 'Z') || ('0' <= d <= '9') || d == '_'),
        0 <= p <= s.len(),
    ensures
        holds_at(t, id, s, p) == if t[id]->LookAround_look_back {
            word_at(s, p - 1)
        } else {
            word_at(s, p)
        },
{
    if t[id]->LookAround_look_back {
        lemma_lookbehind_char(t, id, cs, s, p);
    } else {
        lemma_lookahead_char(t, id, cs, s, p);
    }
}

/// A lookahead whose node takes exactly one character that is no word
/// character asserts that such a character comes after `p`.
proof fn lemma_nonword_ahead(t: NodeTable, id: int, cs: CharSetView, s: Seq<char>, p: int)
    requires
        0 <= id < t.len(),
        t[id] is LookAround && !t[id]->LookAround_look_back,
        forall|w: Seq<char>| #[trigger] accepts(t, t[id]->LookAround_node as int, w) == (w.len() == 1 && view_contains(cs, w[0])),
        forall|d: char| #[trigger] view_contains(cs, d) <==> !(('a' <= d <= 'z') || ('A' <= d <= 'Z') || ('0' <= d <= '9')
            || d == '_'),
        0 <= p <= s.len(),
    ensures
        holds_at(t, id, s, p) == (p < s.len() && !word_at(s, p)),
{
    lemma_lookahead_char(t, id, cs, s, p);
}

/// The lookaround whose node takes exactly one character of `cs`, the word
/// characters.
pub open spec fn word_look(t: NodeTable, id: int, back: bool, cs: CharSetView) -> bool {
    &&& 0 <= id < t.len()
    &&& t[id] is LookAround
    &&& t[id]->LookAround_look_back == back
    &&& forall|w: Seq<char>| #[trigger] accepts(t, t[id]->LookAround_node as int, w) == (w.len() == 1 && view_contains(
        cs,
        w[0],
    ))
    &&& forall|d: char| #[trigger] view_contains(cs, d) <==> (('a' <= d <= 'z') || ('A' <= d <= 'Z') || ('0' <= d <= '9')
        || d == '_')
}

/// The node built for `\b` holds exactly where a character follows whose
/// being a word character differs from the one before (none before the start
/// of the input counting as no word character).
proof fn lemma_word_boundary(
    t: NodeTable,
    r: int,
    w2n: RegexNodeId,
    n2w: RegexNodeId,
    lb: RegexNodeId,
    la_nw: RegexNodeId,
    nlb: RegexNodeId,
    lb2: RegexNodeId,
    la2: RegexNodeId,
    c1: CharSetView,
    cn: CharSetView,
    c3: CharSetView,
    c4: CharSetView,
)
    requires
        table_wf(t),
        0 <= r < t.len(),
        t[r] matches NodeView::Or(ns) && (forall|x: RegexNodeId| ns.contains(x) <==> (x == w2n || x == n2w)),
        t[w2n as int] == (NodeView::<CharSetView>::Concat { head: lb, tail: la_nw }),
        t[n2w as int] == (NodeView::<CharSetView>::Concat { head: nlb, tail: la2 }),
        t[nlb as int] == NodeView::<CharSetView>::Not(lb2),
        w2n < t.len(),
        n2w < t.len(),
        nlb < t.len(),
        word_look(t, lb as int, true, c1),
        0 <= la_nw < t.len(),
        t[la_nw as int] is LookAround && !t[la_nw as int]->LookAround_look_back,
        forall|w: Seq<char>| #[trigger] accepts(t, t[la_nw as int]->LookAround_node as int, w) == (w.len() == 1
            && view_contains(cn, w[0])),
        forall|d: char| #[trigger] view_contains(cn, d) <==> !(('a' <= d <= 'z') || ('A' <= d <= 'Z') || ('0' <= d <= '9')
            || d == '_'),
        word_look(t, lb2 as int, true, c3),
        word_look(t, la2 as int, false, c4),
    ensures
        forall|s: Seq<char>, p: int|
            0 <= p <= s.len() ==> #[trigger] holds_at(t, r, s, p) == (p < s.len() && word_at(s, p - 1) != word_at(s, p)),
{
    assert(node_ok(t[r], r));
    assert(node_ok(t[w2n as int], w2n as int));
    assert(node_ok(t[n2w as int], n2w as int));
    assert(node_ok(t[nlb as int], nlb as int));
    assert forall|s: Seq<char>, p: int| 0 <= p <= s.len() implies #[trigger] holds_at(t, r, s, p) == (p < s.len()
        && word_at(s, p - 1) != word_at(s, p)) by {
        lemma_word_look(t, lb as int, c1, s, p);
        lemma_nonword_ahead(t, la_nw as int, cn, s, p);
        lemma_word_look(t, lb2 as int, c3, s, p);
        lemma_word_look(t, la2 as int, c4, s, p);
        lemma_holds_or_two(t, r, w2n, n2w, s, p);
        assert(holds_at(t, nlb as int, s, p) == !holds_at(t, lb2 as int, s, p));
        assert(holds_at(t, w2n as int, s, p) == (holds_at(t, lb as int, s, p) && holds_at(t, la_nw as int, s, p)));
        assert(holds_at(t, n2w as int, s, p) == (holds_at(t, nlb as int, s, p) && holds_at(t, la2 as int, s, p)));
    }
}

/// The node built for `\B` holds exactly where two word characters, or two
/// non-word characters (counting the edges of the input as such), meet.
proof fn lemma_word_nonboundary(
    t: NodeTable,
    r: int,
    inw: RegexNodeId,
    outw: RegexNodeId,
    lb: RegexNodeId,
    la: RegexNodeId,
    nlb: RegexNodeId,
    nla: RegexNodeId,
    lb2: RegexNodeId,
    la2: RegexNodeId,
    c1: CharSetView,
    c2: CharSetView,
    c3: CharSetView,
    c4: CharSetView,
)
    requires
        table_wf(t),
        0 <= r < t.len(),
        t[r] matches NodeView::Or(ns) && (forall|x: RegexNodeId| ns.contains(x) <==> (x == inw || x == outw)),
        t[inw as int] == (NodeView::<CharSetView>::Concat { head: lb, tail: la }),
        t[outw as int] == (NodeView::<CharSetView>::Concat { head: nlb, tail: nla }),
        t[nlb as int] == NodeView::<CharSetView>::Not(lb2),
        t[nla as int] == NodeView::<CharSetView>::Not(la2),
        inw < t.len(),
        outw < t.len(),
        nla < t.len(),
        nlb < t.len(),
        word_look(t, lb as int, true, c1),
        word_look(t, la as int, false, c2),
        word_look(t, lb2 as int, true, c3),
        word_look(t, la2 as int, false, c4),
    ensures
        forall|s: Seq<char>, p: int|
            0 <= p <= s.len() ==> #[trigger] holds_at(t, r, s, p) == (word_at(s, p - 1) == word_at(s, p)),
{
    assert(node_ok(t[r], r));
    assert(node_ok(t[inw as int], inw as int));
    assert(node_ok(t[outw as int], outw as int));
    assert(node_ok(t[nla as int], nla as int));
    assert(node_ok(t[nlb as int], nlb as int));
    assert forall|s: Seq<char>, p: int| 0 <= p <= s.len() implies #[trigger] holds_at(t, r, s, p) == (word_at(s, p - 1)
        == word_at(s, p)) by {
        lemma_word_look(t, lb as int, c1, s, p);
        lemma_word_look(t, la as int, c2, s, p);
        lemma_word_look(t, lb2 as int, c3, s, p);
        lemma_word_look(t, la2 as int, c4, s, p);
        lemma_holds_or_two(t, r, inw, outw, s, p);
        assert(holds_at(t, nla as int, s, p) == !holds_at(t, la2 as int, s, p));
        assert(holds_at(t, nlb as int, s, p) == !holds_at(t, lb2 as int, s, p));
        assert(holds_at(t, inw as int, s, p) == (holds_at(t, lb as int, s, p) && holds_at(t, la as int, s, p)));
        assert(holds_at(t, outw as int, s, p) == (holds_at(t, nlb as int, s, p) && holds_at(t, nla as int, s, p)));
    }
}

/// The alternation of two nodes that are not alternations, and neither
/// `BOT` nor `TOP_STAR`, has them as its members.
proof fn lemma_two_members(t: NodeTable, a: RegexNodeId, b: RegexNodeId)
    requires
        table_wf(t),
        a < t.len(),
        b < t.len(),
        t[a as int] is Concat,
        t[b as int] is Concat,
    ensures
        forall|x: RegexNodeId| or_members(t, seq![a, b]).contains(x) <==> (x == a || x == b),
        !or_members(t, seq![a, b]).contains(node_id::TOP_STAR),
        or_members(t, seq![a, b]).len() == 2,
        or_members(t, seq![a, b])[0] == a,
        or_members(t, seq![a, b])[1] == b,
{
    assert(a != node_id::BOT) by {
        assert(t[0] == NodeView::<CharSetView>::Or(Seq::empty()));
    }
    assert(b != node_id::BOT) by {
        assert(t[0] == NodeView::<CharSetView>::Or(Seq::empty()));
    }
    assert(seq![a, b].drop_last() =~= seq![a]);
    assert(seq![a].drop_last() =~= Seq::<RegexNodeId>::empty());
    assert(or_piece(t, a) == seq![a]);
    assert(or_piece(t, b) == seq![b]);
    assert(seq![a].last() == a);
    assert(seq![a, b].last() == b);
    assert(or_members(t, Seq::<RegexNodeId>::empty()) == Seq::<RegexNodeId>::empty());
    assert(or_members(t, seq![a]) =~= seq![a]);
    assert(or_members(t, seq![a, b]) =~= seq![a, b]);
    assert(t[3] is Loop);
}

impl Parser {
    /// The characters of the pattern.
    pub closed spec fn input(&self) -> Seq<char> {
        self.chars@
    }

    /// How many characters have been read.
    pub closed spec fn pos(&self) -> int {
        self.position as int
    }

    /// The nodes built so far.
    pub closed spec fn table(&self) -> NodeTable {
        self.builder.table()
    }

    /// The builder is well formed and the position lies within the input.
    pub closed spec fn wf(&self) -> bool {
        &&& self.builder.wf()
        &&& self.position <= self.chars@.len()
    }

    /// What every parsing step keeps: the same input, a position that only
    /// moves forward, a builder that stays well formed and only grows.
    pub open spec fn step(p0: Parser, p1: Parser) -> bool {
        &&& p1.wf()
        &&& p1.input() == p0.input()
        &&& p0.pos() <= p1.pos()
        &&& table_extends(p0.table(), p1.table())
    }

    /// A parsing result: a node of the table, or an error within the input.
    pub open spec fn valid_result(p: Parser, r: Result<RegexNodeId, ParseError>) -> bool {
        match r {
            Ok(id) => id < p.table().len(),
            Err(e) => e.position <= p.input().len(),
        }
    }

    /// A parsing step ended as the scan of the pattern says: where the scan
    /// succeeds, with success at the position after the construct; where it
    /// fails, with its error.
    pub open spec fn outcome<T>(sc: Scan, r: Result<T, ParseError>, end: int) -> bool {
        match sc {
            Ok(j) => r is Ok && end == j,
            Err((p, m)) => r matches Err(e) && e.position == p && e.message@ == m,
        }
    }

    /// A parser at the start of `input`, with a fresh builder.
    pub fn new(input: &str) -> (r: Self)
        ensures
            r.wf(),
            r.input() == input@,
            r.pos() == 0,
            r.table().len() == 7,
    {
        Parser { chars: collect_chars(input), position: 0, builder: RegexBuilder::new() }
    }

    /// Parses the whole pattern: the root node and the builder holding it,
    /// or the first error.
    pub fn parse(self) -> (r: Result<(RegexNodeId, RegexBuilder<CharSet>), ParseError>)
        requires
            self.wf(),
        ensures
            match r {
                Ok((root, b)) => b.wf() && root < b.spec_len() && table_extends(self.table(), b.table()),
                Err(e) => e.position <= self.input().len(),
            },
            self.pos() == 0 ==> Parser::outcome(pattern_scan(self.input()), r, self.input().len() as int),
            self.pos() == 0 && self.input().len() == 0 ==> (r matches Ok((root, _)) && root == node_id::EPS),
            self.pos() == 0 ==> (lone_fixed_atom(self.input(), 0) matches Some(id) ==> (r matches Ok((root, _))
                && root == id)),
            self.pos() == 0 ==> (r matches Ok((root, b)) ==> (b.table().len() < NODE_LIMIT ==> node_means(
                b.table(),
                root as int,
                pattern_lang(self.input()),
            ))),
            self.pos() == 0 ==> (r matches Ok((root, b)) ==> (b.table().len() < NODE_LIMIT && pattern_lang(
                self.input(),
            ) is Some && no_complement(self.input(), 0, self.input().len() as int) ==> complement_free(
                b.table(),
                root as int,
            ))),
    {
        let mut p = self;
        let root = match p.parse_alternation() {
            Ok(id) => id,
            Err(e) => {
                return Err(e);
            },
        };
        if p.peek().is_some() {
            return Err(p.error("Unexpected character"));
        }
        Ok((root, p.builder))
    }

    /// An error at the current position.
    fn error(&self, message: &str) -> (r: ParseError)
        requires
            self.wf(),
        ensures
            r.message@ == message@,
            r.position == self.pos(),
    {
        ParseError { message: String::from_str(message), position: self.position }
    }

    /// An error at the current position with a message already built.
    fn error_with(&self, message: String) -> (r: ParseError)
        requires
            self.wf(),
        ensures
            r.message == message,
            r.position == self.pos(),
    {
        ParseError { message, position: self.position }
    }

    /// The next character, if any.
    fn peek(&self) -> (r: Option<char>)
        requires
            self.wf(),
        ensures
            r == (if self.pos() < self.input().len() {
                Some(self.input()[self.pos()])
            } else {
                None::<char>
            }),
    {
        if self.position < self.chars.len() {
            Some(self.chars[self.position])
        } else {
            None
        }
    }

    /// The character after the next one, if any.
    fn peek_second(&self) -> (r: Option<char>)
        requires
            self.wf(),
        ensures
            r == (if self.pos() + 1 < self.input().len() {
                Some(self.input()[self.pos() + 1])
            } else {
                None::<char>
            }),
    {
        if self.position < self.chars.len() && self.position + 1 < self.chars.len() {
            Some(self.chars[self.position + 1])
        } else {
            None
        }
    }

    /// Reads the next character, if any.
    fn advance(&mut self) -> (r: Option<char>)
        requires
            old(self).wf(),
        ensures
            final(self).wf(),
            final(self).input() == old(self).input(),
            final(self).table() == old(self).table(),
            final(self).builder == old(self).builder,
            old(self).pos() < old(self).input().len() ==> r == Some(old(self).input()[old(self).pos()])
                && final(self).pos() == old(self).pos() + 1,
            old(self).pos() >= old(self).input().len() ==> r is None && final(self).pos() == old(self).pos(),
    {
        if self.position < self.chars.len() {
            let c = self.chars[self.position];
            self.position = self.position + 1;
            Some(c)
        } else {
            None
        }
    }

    /// Reads the next character, which must be `expected`.
    fn expect(&mut self, expected: char) -> (r: Result<(), ParseError>)
        requires
            old(self).wf(),
        ensures
            final(self).wf(),
            final(self).input() == old(self).input(),
            final(self).builder == old(self).builder,
            final(self).pos() == (if old(self).pos() < old(self).input().len() {
                old(self).pos() + 1
            } else {
                old(self).pos()
            }),
            r is Ok <==> old(self).pos() < old(self).input().len() && old(self).input()[old(self).pos()] == expected,
            r matches Err(e) ==> e.position == final(self).pos(),
            Parser::outcome(expect_scan(old(self).input(), old(self).pos(), expected), r, final(self).pos()),
    {
        match self.advance() {
            Some(c) => {
                if c == expected {
                    Ok(())
                } else {
                    Err(self.error_with(expected_found_message(expected, c)))
                }
            },
            None => Err(self.error_with(expected_end_message(expected))),
        }
    }

    /// Skips the flag characters of a group such as `(?m)` or `(?i-u:...)`,
    /// up to and including a `:`, or up to a `)`.
    fn skip_flags(&mut self) -> (r: Result<(), ParseError>)
        requires
            old(self).wf(),
        ensures
            final(self).wf(),
            final(self).input() == old(self).input(),
            final(self).builder == old(self).builder,
            old(self).pos() <= final(self).pos(),
            r matches Err(e) ==> e.position == final(self).pos(),
            Parser::outcome(flags_scan(old(self).input(), old(self).pos()), r, final(self).pos()),
    {
        loop
            invariant_except_break
                flags_scan(self.input(), self.pos()) == flags_scan(old(self).input(), old(self).pos()),
            invariant
                self.wf(),
                self.input() == old(self).input(),
                self.builder == old(self).builder,
                old(self).pos() <= self.pos(),
            ensures
                self.wf(),
                self.input() == old(self).input(),
                self.builder == old(self).builder,
                old(self).pos() <= self.pos(),
                flags_scan(old(self).input(), old(self).pos()) == Scan::Ok(self.pos()),
            decreases self.input().len() - self.pos(),
        {
            let c = match self.peek() {
                Some(c) => c,
                None => {
                    break;
                },
            };
            if c == 'i' || c == 'm' || c == 's' || c == 'u' || c == 'U' || c == 'x' || c == '-' {
                self.advance();
            } else if c == ':' {
                self.advance();
                break;
            } else if c == ')' {
                break;
            } else {
                return Err(self.error_with(unknown_flag_message(c)));
            }
        }
        Ok(())
    }

    /// Parses an alternation: intersections separated by `|`.
    fn parse_alternation(&mut self) -> (r: Result<RegexNodeId, ParseError>)
        requires
            old(self).wf(),
        ensures
            Parser::step(*old(self), *final(self)),
            Parser::valid_result(*final(self), r),
            Parser::outcome(alternation_scan(old(self).input(), old(self).pos()), r, final(self).pos()),
            final(self).table().len() < NODE_LIMIT ==> (r matches Ok(id) ==> node_means(
                final(self).table(),
                id as int,
                alternation_lang(old(self).input(), old(self).pos()),
            )),
            final(self).table().len() < NODE_LIMIT && alternation_lang(old(self).input(), old(self).pos()) is Some
                && no_complement(old(self).input(), old(self).pos(), final(self).pos()) ==> (r matches Ok(id)
                ==> complement_free(final(self).table(), id as int)),
        old(self).pos() >= old(self).input().len() ==> (r matches Ok(id) && id == node_id::EPS) && final(self).pos()
            == old(self).pos(),
        lone_fixed_atom(old(self).input(), old(self).pos()) matches Some(id) ==> (r matches Ok(x) && x == id)
            && final(self).pos() == old(self).input().len(),
        decreases old(self).input().len() - old(self).pos(), 5int,
    {
        let ghost s = self.input();
        let ghost p0 = self.pos();
        let first = match self.parse_intersection() {
            Ok(id) => id,
            Err(e) => {
                return Err(e);
            },
        };
        let mut nodes: Vec<RegexNodeId> = Vec::new();
        nodes.push(first);
        proof {
            if self.table().len() < NODE_LIMIT {
                lemma_or_start(self.table(), nodes@, first, s, p0, self.pos());
                lemma_or_start_cf(self.table(), nodes@, first, s, p0, self.pos());
            }
        }
        while self.peek() == Some('|')
            invariant
                lone_fixed_atom(s, p0) matches Some(id) ==> self.pos() == s.len() && nodes@ == seq![id],
                p0 >= s.len() ==> self.pos() == p0 && nodes@ == seq![node_id::EPS],
                Parser::step(*old(self), *self),
                all_below(nodes@, self.table().len() as int),
                nodes@.len() >= 1,
                s == self.input(),
                p0 == old(self).pos(),
                alternation_rest_scan(s, self.pos()) == alternation_scan(s, old(self).pos()),
                self.table().len() < NODE_LIMIT ==> list_inv(
                    self.table(),
                    nodes@,
                    alternation_lang(s, p0),
                    alternation_rest_lang(s, self.pos()),
                    false,
                ),
                self.table().len() < NODE_LIMIT ==> (alternation_lang(s, p0) is Some && no_complement(s, p0, self.pos())
                    ==> all_complement_free(self.table(), nodes@)),
            decreases self.input().len() - self.pos(),
        {
            let ghost q = self.pos();
            self.advance();
            let ghost t1 = self.table();
            let ghost nodes1 = nodes@;
            let next = match self.parse_intersection() {
                Ok(id) => id,
                Err(e) => {
                    return Err(e);
                },
            };
            proof {
                assert forall|k: int| 0 <= k < nodes@.len() implies (#[trigger] nodes@[k]) < self.table().len() by {
                    assert(nodes@[k] < t1.len());
                }
            }
            nodes.push(next);
            proof {
                crate::semantics::lemma_lists_push(self.table(), nodes@.drop_last(), next, self.table().len() as int);
                assert(nodes@.drop_last().push(next) =~= nodes@);
                if self.table().len() < NODE_LIMIT {
                    lemma_or_next(t1, self.table(), nodes1, next, s, p0, q, self.pos());
                    lemma_or_next_cf(t1, self.table(), nodes1, next, s, p0, q, self.pos());
                }
            }
        }
        if nodes.len() == 1 {
            proof {
                if self.table().len() < NODE_LIMIT {
                    lemma_or_finish(self.table(), nodes@, s, p0, self.pos());
                    lemma_list_single(self.table(), nodes@, alternation_lang(s, p0), false);
                    crate::semantics::lemma_any_single(self.table(), nodes@, Seq::empty());
                }
            }
            Ok(nodes[0])
        } else {
            let ghost t1 = self.table();
            let ghost ns = nodes@;
            proof {
                if self.table().len() < NODE_LIMIT {
                    lemma_or_finish(t1, ns, s, p0, self.pos());
                }
            }
            let id = self.builder.mk_or(nodes);
            proof {
                if self.table().len() < NODE_LIMIT {
                    lemma_list_end(t1, self.table(), ns, id, alternation_lang(s, p0), false);
                }
            }
            Ok(id)
        }
    }

    /// Parses an intersection: concatenations separated by `&`.
    fn parse_intersection(&mut self) -> (r: Result<RegexNodeId, ParseError>)
        requires
            old(self).wf(),
        ensures
            Parser::step(*old(self), *final(self)),
            Parser::valid_result(*final(self), r),
            Parser::outcome(intersection_scan(old(self).input(), old(self).pos()), r, final(self).pos()),
            final(self).table().len() < NODE_LIMIT ==> (r matches Ok(id) ==> node_means(
                final(self).table(),
                id as int,
                intersection_lang(old(self).input(), old(self).pos()),
            )),
            final(self).table().len() < NODE_LIMIT && intersection_lang(old(self).input(), old(self).pos()) is Some
                && no_complement(old(self).input(), old(self).pos(), final(self).pos()) ==> (r matches Ok(id)
                ==> complement_free(final(self).table(), id as int)),
        old(self).pos() >= old(self).input().len() ==> (r matches Ok(id) && id == node_id::EPS) && final(self).pos()
            == old(self).pos(),
        lone_fixed_atom(old(self).input(), old(self).pos()) matches Some(id) ==> (r matches Ok(x) && x == id)
            && final(self).pos() == old(self).input().len(),
        decreases old(self).input().len() - old(self).pos(), 4int,
    {
        let ghost s = self.input();
        let ghost p0 = self.pos();
        let first = match self.parse_concat() {
            Ok(id) => id,
            Err(e) => {
                return Err(e);
            },
        };
        let mut nodes: Vec<RegexNodeId> = Vec::new();
        nodes.push(first);
        proof {
            if self.table().len() < NODE_LIMIT {
                lemma_and_start(self.table(), nodes@, first, s, p0, self.pos());
                lemma_and_start_cf(self.table(), nodes@, first, s, p0, self.pos());
            }
        }
        while self.peek() == Some('&')
            invariant
                lone_fixed_atom(s, p0) matches Some(id) ==> self.pos() == s.len() && nodes@ == seq![id],
                p0 >= s.len() ==> self.pos() == p0 && nodes@ == seq![node_id::EPS],
                Parser::step(*old(self), *self),
                all_below(nodes@, self.table().len() as int),
                nodes@.len() >= 1,
                s == self.input(),
                p0 == old(self).pos(),
                intersection_rest_scan(s, self.pos()) == intersection_scan(s, old(self).pos()),
                self.table().len() < NODE_LIMIT ==> list_inv(
                    self.table(),
                    nodes@,
                    intersection_lang(s, p0),
                    intersection_rest_lang(s, self.pos()),
                    true,
                ),
                self.table().len() < NODE_LIMIT ==> (intersection_lang(s, p0) is Some && no_complement(s, p0, self.pos())
                    ==> all_complement_free(self.table(), nodes@)),
            decreases self.input().len() - self.pos(),
        {
            let ghost q = self.pos();
            self.advance();
            let ghost t1 = self.table();
            let ghost nodes1 = nodes@;
            let next = match self.parse_concat() {
                Ok(id) => id,
                Err(e) => {
                    return Err(e);
                },
            };
            proof {
                assert forall|k: int| 0 <= k < nodes@.len() implies (#[trigger] nodes@[k]) < self.table().len() by {
                    assert(nodes@[k] < t1.len());
                }
            }
            nodes.push(next);
            proof {
                crate::semantics::lemma_lists_push(self.table(), nodes@.drop_last(), next, self.table().len() as int);
                assert(nodes@.drop_last().push(next) =~= nodes@);
                if self.table().len() < NODE_LIMIT {
                    lemma_and_next(t1, self.table(), nodes1, next, s, p0, q, self.pos());
                    lemma_and_next_cf(t1, self.table(), nodes1, next, s, p0, q, self.pos());
                }
            }
        }
        if nodes.len() == 1 {
            proof {
                if self.table().len() < NODE_LIMIT {
                    lemma_and_finish(self.table(), nodes@, s, p0, self.pos());
                    lemma_list_single(self.table(), nodes@, intersection_lang(s, p0), true);
                    crate::semantics::lemma_any_single(self.table(), nodes@, Seq::empty());
                }
            }
            Ok(nodes[0])
        } else {
            let ghost t1 = self.table();
            let ghost ns = nodes@;
            proof {
                if self.table().len() < NODE_LIMIT {
                    lemma_and_finish(t1, ns, s, p0, self.pos());
                    if intersection_lang(s, p0) is Some {
                        lemma_no_top(t1, ns);
                    }
                }
            }
            let id = self.builder.mk_and(nodes);
            proof {
                if self.table().len() < NODE_LIMIT {
                    lemma_list_end(t1, self.table(), ns, id, intersection_lang(s, p0), true);
                }
            }
            Ok(id)
        }
    }

    /// Parses a concatenation: quantified atoms up to `|`, `&`, `)` or the
    /// end; none at all is the empty word.
    fn parse_concat(&mut self) -> (r: Result<RegexNodeId, ParseError>)
        requires
            old(self).wf(),
        ensures
            Parser::step(*old(self), *final(self)),
            Parser::valid_result(*final(self), r),
            Parser::outcome(concat_scan(old(self).input(), old(self).pos()), r, final(self).pos()),
            final(self).table().len() < NODE_LIMIT ==> (r matches Ok(id) ==> node_means(
                final(self).table(),
                id as int,
                concat_lang(old(self).input(), old(self).pos()),
            )),
            final(self).table().len() < NODE_LIMIT && concat_lang(old(self).input(), old(self).pos()) is Some
                && no_complement(old(self).input(), old(self).pos(), final(self).pos()) ==> (r matches Ok(id)
                ==> complement_free(final(self).table(), id as int)),
        old(self).pos() >= old(self).input().len() ==> (r matches Ok(id) && id == node_id::EPS) && final(self).pos()
            == old(self).pos(),
        lone_fixed_atom(old(self).input(), old(self).pos()) matches Some(id) ==> (r matches Ok(x) && x == id)
            && final(self).pos() == old(self).input().len(),
        decreases old(self).input().len() - old(self).pos(), 3int,
    {
        let ghost s = self.input();
        let ghost p0 = self.pos();
        let mut nodes: Vec<RegexNodeId> = Vec::new();
        proof {
            lemma_cat_start(self.table(), s, p0);
        }
        loop
            invariant
                lone_fixed_atom(s, p0) matches Some(id) ==> (self.pos() == p0 && nodes@.len() == 0) || (self.pos()
                    == s.len() && nodes@ == seq![id]),
                p0 >= s.len() ==> nodes@.len() == 0 && self.pos() == p0,
                Parser::step(*old(self), *self),
                all_below(nodes@, self.table().len() as int),
                s == self.input(),
                p0 == old(self).pos(),
                concat_scan(s, self.pos()) == concat_scan(s, old(self).pos()),
                self.table().len() < NODE_LIMIT ==> cat_inv(
                    self.table(),
                    nodes@,
                    concat_lang(s, p0),
                    concat_lang(s, self.pos()),
                ),
                self.table().len() < NODE_LIMIT ==> (concat_lang(s, p0) is Some && no_complement(s, p0, self.pos())
                    ==> all_complement_free(self.table(), nodes@)),
            ensures
                lone_fixed_atom(s, p0) matches Some(id) ==> (self.pos()
                    == s.len() && nodes@ == seq![id]),
                Parser::step(*old(self), *self),
                all_below(nodes@, self.table().len() as int),
                concat_scan(s, old(self).pos()) == Scan::Ok(self.pos()),
                self.table().len() < NODE_LIMIT ==> cat_inv(
                    self.table(),
                    nodes@,
                    concat_lang(s, p0),
                    concat_lang(s, self.pos()),
                ),
                self.table().len() < NODE_LIMIT ==> (concat_lang(s, p0) is Some && no_complement(s, p0, self.pos())
                    ==> all_complement_free(self.table(), nodes@)),
                !(self.pos() < s.len() && s[self.pos()] != '|' && s[self.pos()] != '&' && s[self.pos()] != ')'),
            decreases self.input().len() - self.pos(),
        {
            let c = match self.peek() {
                Some(c) => c,
                None => {
                    break;
                },
            };
            if c == '|' || c == '&' || c == ')' {
                break;
            }
            let ghost q = self.pos();
            let ghost t1 = self.table();
            let ghost nodes1 = nodes@;
            let next = match self.parse_quantified() {
                Ok(id) => id,
                Err(e) => {
                    return Err(e);
                },
            };
            proof {
                assert forall|k: int| 0 <= k < nodes@.len() implies (#[trigger] nodes@[k]) < self.table().len() by {
                    assert(nodes@[k] < t1.len());
                }
            }
            nodes.push(next);
            proof {
                crate::semantics::lemma_lists_push(self.table(), nodes@.drop_last(), next, self.table().len() as int);
                assert(nodes@.drop_last().push(next) =~= nodes@);
                if self.table().len() < NODE_LIMIT {
                    lemma_cat_next(t1, self.table(), nodes1, next, s, p0, q, self.pos());
                    lemma_cat_next_cf(t1, self.table(), nodes1, next, s, p0, q, self.pos());
                }
            }
        }
        let ghost t1 = self.table();
        let ghost ns = nodes@;
        proof {
            if self.table().len() < NODE_LIMIT {
                lemma_cat_finish(t1, ns, s, p0, self.pos());
            }
        }
        if nodes.len() == 0 {
            proof {
                if self.table().len() < NODE_LIMIT {
                    lemma_cat_empty(t1, ns, concat_lang(s, p0));
                }
            }
            Ok(self.builder.mk_eps())
        } else if nodes.len() == 1 {
            proof {
                if self.table().len() < NODE_LIMIT {
                    lemma_cat_single(t1, ns, concat_lang(s, p0));
                    crate::semantics::lemma_any_single(t1, ns, Seq::empty());
                }
            }
            Ok(nodes[0])
        } else {
            let id = self.builder.mk_concat_many(nodes);
            proof {
                if self.table().len() < NODE_LIMIT {
                    lemma_cat_end(t1, self.table(), ns, id, concat_lang(s, p0));
                }
            }
            Ok(id)
        }
    }

    /// Parses an atom with an optional quantifier (`*`, `+`, `?` or
    /// `{n,m}`), itself optionally followed by `?`, which is read and
    /// ignored: matches are leftmost-longest either way.
    fn parse_quantified(&mut self) -> (r: Result<RegexNodeId, ParseError>)
        requires
            old(self).wf(),
        ensures
            Parser::step(*old(self), *final(self)),
            Parser::valid_result(*final(self), r),
            r is Ok ==> old(self).pos() < final(self).pos(),
            Parser::outcome(quantified_scan(old(self).input(), old(self).pos()), r, final(self).pos()),
            final(self).table().len() < NODE_LIMIT ==> (r matches Ok(id) ==> node_means(
                final(self).table(),
                id as int,
                quantified_lang(old(self).input(), old(self).pos()),
            )),
            final(self).table().len() < NODE_LIMIT && quantified_lang(old(self).input(), old(self).pos()) is Some
                && no_complement(old(self).input(), old(self).pos(), final(self).pos()) ==> (r matches Ok(id)
                ==> complement_free(final(self).table(), id as int)),
        lone_fixed_atom(old(self).input(), old(self).pos()) matches Some(id) ==> (r matches Ok(x) && x == id)
            && final(self).pos() == old(self).input().len(),
        decreases old(self).input().len() - old(self).pos(), 2int,
    {
        let ghost s = self.input();
        let ghost p0 = self.pos();
        let node = match self.parse_atom() {
            Ok(id) => id,
            Err(e) => {
                return Err(e);
            },
        };
        let ghost t1 = self.table();
        let ghost j = self.pos();
        let next = self.peek();
        let result = if next == Some('*') {
            self.advance();
            let id = self.builder.mk_loop(node, 0, u32::MAX);
            proof {
                if self.table().len() < NODE_LIMIT {
                    lemma_loop_node(t1, self.table(), node, id, atom_lang(s, p0), 0, u32::MAX);
                }
            }
            id
        } else if next == Some('+') {
            self.advance();
            let id = self.builder.mk_loop(node, 1, u32::MAX);
            proof {
                if self.table().len() < NODE_LIMIT {
                    lemma_loop_node(t1, self.table(), node, id, atom_lang(s, p0), 1, u32::MAX);
                }
            }
            id
        } else if next == Some('?') {
            self.advance();
            let id = self.builder.mk_loop(node, 0, 1);
            proof {
                if self.table().len() < NODE_LIMIT {
                    lemma_loop_node(t1, self.table(), node, id, atom_lang(s, p0), 0, 1);
                }
            }
            id
        } else if next == Some('{') {
            match self.parse_repeat_range(node) {
                Ok(id) => {
                    proof {
                        if self.table().len() < NODE_LIMIT {
                            lemma_loop_node(
                                t1,
                                self.table(),
                                node,
                                id,
                                atom_lang(s, p0),
                                repeat_counts(s, j).0,
                                repeat_counts(s, j).1,
                            );
                        }
                    }
                    id
                },
                Err(e) => {
                    return Err(e);
                },
            }
        } else {
            return Ok(node);
        };
        if self.peek() == Some('?') {
            self.advance();
        }
        Ok(result)
    }

    /// Parses `{n}`, `{n,}` or `{n,m}` after an atom.
    fn parse_repeat_range(&mut self, node: RegexNodeId) -> (r: Result<RegexNodeId, ParseError>)
        requires
            old(self).wf(),
            node < old(self).table().len(),
        ensures
            Parser::step(*old(self), *final(self)),
            Parser::valid_result(*final(self), r),
            Parser::outcome(repeat_scan(old(self).input(), old(self).pos()), r, final(self).pos()),
            final(self).table().len() < NODE_LIMIT ==> (r matches Ok(id) ==> (plain(old(self).table(), node as int)
                ==> plain(final(self).table(), id as int)) && forall|w: Seq<char>|
                #[trigger] accepts(final(self).table(), id as int, w) == loop_accepts(
                    final(self).table(),
                    node as int,
                    repeat_counts(old(self).input(), old(self).pos()).0,
                    repeat_counts(old(self).input(), old(self).pos()).1,
                    w,
                )),
            final(self).table().len() < NODE_LIMIT ==> (r matches Ok(id) ==> (complement_free(
                old(self).table(),
                node as int,
            ) ==> complement_free(final(self).table(), id as int))),
    {
        match self.expect('{') {
            Ok(()) => {},
            Err(e) => {
                return Err(e);
            },
        }
        let low = match self.parse_number() {
            Ok(n) => n,
            Err(e) => {
                return Err(e);
            },
        };
        let high = if self.peek() == Some(',') {
            self.advance();
            if self.peek() == Some('}') {
                u32::MAX
            } else {
                match self.parse_number() {
                    Ok(n) => n,
                    Err(e) => {
                        return Err(e);
                    },
                }
            }
        } else {
            low
        };
        match self.expect('}') {
            Ok(()) => {},
            Err(e) => {
                return Err(e);
            },
        }
        Ok(self.builder.mk_loop(node, low, high))
    }

    /// Reads a run of decimal digits; its value saturates at `u32::MAX`.
    fn parse_number(&mut self) -> (r: Result<u32, ParseError>)
        requires
            old(self).wf(),
        ensures
            final(self).wf(),
            final(self).input() == old(self).input(),
            final(self).builder == old(self).builder,
            old(self).pos() <= final(self).pos(),
            forall|k: int| old(self).pos() <= k < final(self).pos() ==> is_digit(#[trigger] old(self).input()[k]),
            final(self).pos() < final(self).input().len() ==> !is_digit(final(self).input()[final(self).pos()]),
            r is Ok <==> old(self).pos() < final(self).pos(),
            r matches Ok(n) ==> n == (if decimal_value(old(self).input().subrange(old(self).pos(), final(self).pos()))
                < u32::MAX {
                decimal_value(old(self).input().subrange(old(self).pos(), final(self).pos()))
            } else {
                u32::MAX as nat
            }),
            r matches Err(e) ==> e.position == final(self).pos(),
            Parser::outcome(number_scan(old(self).input(), old(self).pos()), r, final(self).pos()),
    {
        let mut num: u32 = 0;
        let mut found = false;
        let ghost start = self.pos();
        loop
            invariant
                self.wf(),
                self.input() == old(self).input(),
                self.builder == old(self).builder,
                start == old(self).pos(),
                start <= self.pos(),
                found <==> start < self.pos(),
                forall|k: int| start <= k < self.pos() ==> is_digit(#[trigger] self.input()[k]),
                num == (if decimal_value(self.input().subrange(start, self.pos())) < u32::MAX {
                    decimal_value(self.input().subrange(start, self.pos()))
                } else {
                    u32::MAX as nat
                }),
            ensures
                self.pos() < self.input().len() ==> !is_digit(self.input()[self.pos()]),
            decreases self.input().len() - self.pos(),
        {
            let c = match self.peek() {
                Some(c) => c,
                None => {
                    break;
                },
            };
            if '0' <= c && c <= '9' {
                let digit = (c as u32) - ('0' as u32);
                let ghost ds = self.input().subrange(start, self.pos());
                let ghost v = decimal_value(ds);
                let tens = if num > 429496729 {
                    u32::MAX
                } else {
                    num * 10
                };
                num = tens.saturating_add(digit);
                found = true;
                self.advance();
                proof {
                    let ds2 = self.input().subrange(start, self.pos());
                    assert(ds2.drop_last() =~= ds);
                    assert(ds2.last() == c);
                    assert(decimal_value(ds2) == v * 10 + digit);
                    let vi: int = v as int;
                    let di: int = digit as int;
                    if vi >= u32::MAX {
                        assert(vi * 10 >= u32::MAX) by (nonlinear_arith)
                            requires
                                vi >= u32::MAX,
                        ;
                    } else {
                        assert(num as int == (if vi * 10 + di < u32::MAX {
                            vi * 10 + di
                        } else {
                            u32::MAX as int
                        })) by (nonlinear_arith)
                            requires
                                0 <= vi < u32::MAX,
                                tens as int == (if vi > 429496729 {
                                    u32::MAX as int
                                } else {
                                    vi * 10
                                }),
                                num as int == (if tens as int + di > u32::MAX {
                                    u32::MAX as int
                                } else {
                                    tens as int + di
                                }),
                                0 <= di < 10,
                        ;
                    }
                }
            } else {
                break;
            }
        }
        proof {
            lemma_digits_end(self.input(), start, self.pos());
        }
        if !found {
            return Err(self.error("Expected a number"));
        }
        Ok(num)
    }

    /// Parses an atom: a literal, `.`, `_`, a group, a lookaround, a
    /// complement `~(...)`, a class `[...]`, an anchor or an escape.
    #[verifier::rlimit(100)]
    #[verifier::spinoff_prover]
    fn parse_atom(&mut self) -> (r: Result<RegexNodeId, ParseError>)
        requires
            old(self).wf(),
        ensures
            Parser::step(*old(self), *final(self)),
            Parser::valid_result(*final(self), r),
            r is Ok ==> old(self).pos() < final(self).pos(),
            Parser::outcome(atom_scan(old(self).input(), old(self).pos()), r, final(self).pos()),
            final(self).table().len() < NODE_LIMIT ==> (r matches Ok(id) ==> node_means(
                final(self).table(),
                id as int,
                atom_lang(old(self).input(), old(self).pos()),
            )),
            final(self).table().len() < NODE_LIMIT && atom_lang(old(self).input(), old(self).pos()) is Some
                && no_complement(old(self).input(), old(self).pos(), final(self).pos()) ==> (r matches Ok(id)
                ==> complement_free(final(self).table(), id as int)),
        fixed_atom(old(self).input(), old(self).pos()) matches Some((id, e)) ==> (r matches Ok(x) && x == id)
            && final(self).pos() == e,
        decreases old(self).input().len() - old(self).pos(), 1int,
    {
        let ghost s = self.input();
        let ghost p0 = self.pos();
        let next = self.peek();
        match next {
            None => Err(self.error("Unexpected end of input")),
            Some(c) => {
                if c == '(' {
                    self.advance();
                    if self.peek() == Some('?') {
                        self.advance();
                        let kind = self.peek();
                        if kind == Some(':') {
                            self.advance();
                            self.parse_group_body()
                        } else if kind == Some('=') {
                            self.advance();
                            let inner = match self.parse_group_body() {
                                Ok(id) => id,
                                Err(e) => {
                                    return Err(e);
                                },
                            };
                            Ok(self.builder.mk_lookahead(inner))
                        } else if kind == Some('!') {
                            self.advance();
                            let inner = match self.parse_group_body() {
                                Ok(id) => id,
                                Err(e) => {
                                    return Err(e);
                                },
                            };
                            let not_inner = self.builder.mk_not(inner);
                            Ok(self.builder.mk_lookahead(not_inner))
                        } else if kind == Some('<') {
                            self.advance();
                            let dir = self.peek();
                            if dir == Some('=') {
                                self.advance();
                                let inner = match self.parse_group_body() {
                                    Ok(id) => id,
                                    Err(e) => {
                                        return Err(e);
                                    },
                                };
                                Ok(self.builder.mk_lookbehind(inner))
                            } else if dir == Some('!') {
                                self.advance();
                                let inner = match self.parse_group_body() {
                                    Ok(id) => id,
                                    Err(e) => {
                                        return Err(e);
                                    },
                                };
                                let not_inner = self.builder.mk_not(inner);
                                Ok(self.builder.mk_lookbehind(not_inner))
                            } else {
                                Err(self.error("Expected '=' or '!' after '(?<'"))
                            }
                        } else {
                            proof {
                                if p0 + 4 <= s.len() && s[p0 + 2] == 'm' && s[p0 + 3] == ')' {
                                    reveal_with_fuel(flags_scan, 2);
                                    assert(flags_scan(s, p0 + 2) == Scan::Ok(p0 + 3));
                                }
                            }
                            match self.skip_flags() {
                                Ok(()) => {},
                                Err(e) => {
                                    return Err(e);
                                },
                            }
                            if self.peek() == Some(')') {
                                self.advance();
                                proof {
                                    lemma_eps_node(self.table());
                                }
                                Ok(self.builder.mk_eps())
                            } else {
                                self.parse_group_body()
                            }
                        }
                    } else {
                        self.parse_group_body()
                    }
                } else if c == '~' {
                    self.advance();
                    match self.expect('(') {
                        Ok(()) => {},
                        Err(e) => {
                            return Err(e);
                        },
                    }
                    let inner = match self.parse_group_body() {
                        Ok(id) => id,
                        Err(e) => {
                            return Err(e);
                        },
                    };
                    let ghost t1 = self.table();
                    let id = self.builder.mk_not(inner);
                    proof {
                        if self.table().len() < NODE_LIMIT {
                            lemma_not_node(t1, self.table(), inner, id, group_lang(s, p0 + 2));
                        }
                    }
                    Ok(id)
                } else if c == '.' {
                    self.advance();
                    let mut set = CharSet::full();
                    set.clear_ascii('\n');
                    let ghost sv = set;
                    let id = self.builder.mk_singleton(set);
                    proof {
                        if self.table().len() < NODE_LIMIT {
                            lemma_char_node(self.table(), id, sv, |d: char| d != '\n');
                        }
                    }
                    Ok(id)
                } else if c == '_' {
                    self.advance();
                    let set = CharSet::full();
                    let ghost sv = set;
                    let id = self.builder.mk_singleton(set);
                    proof {
                        if self.table().len() < NODE_LIMIT {
                            lemma_char_node(self.table(), id, sv, |d: char| true);
                        }
                    }
                    Ok(id)
                } else if c == '[' {
                    let r = self.parse_char_class();
                    proof {
                        if self.table().len() < NODE_LIMIT {
                            if let Ok(id) = r {
                                lemma_char_meaning(self.table(), id, |d: char| class_member(s, p0, d));
                            }
                        }
                    }
                    r
                } else if c == '^' {
                    self.advance();
                    Ok(self.builder.mk_begin())
                } else if c == '$' {
                    self.advance();
                    Ok(self.builder.mk_end())
                } else if c == '\\' {
                    let r = self.parse_escape();
                    proof {
                        if self.table().len() < NODE_LIMIT && p0 + 1 < s.len() && !escape_is_anchor(s[p0 + 1]) {
                            if let Ok(id) = r {
                                lemma_char_meaning(self.table(), id, |d: char| escape_member(s[p0 + 1], d));
                            }
                        }
                    }
                    r
                } else if is_metachar(c) {
                    Err(self.error_with(unexpected_metachar_message(c)))
                } else {
                    self.advance();
                    let set = CharSet::singleton(c);
                    let ghost sv = set;
                    let id = self.builder.mk_singleton(set);
                    proof {
                        if self.table().len() < NODE_LIMIT {
                            lemma_char_node(self.table(), id, sv, |d: char| d == c);
                        }
                    }
                    Ok(id)
                }
            },
        }
    }

    /// Parses the inside of a group after its opening and the closing `)`.
    fn parse_group_body(&mut self) -> (r: Result<RegexNodeId, ParseError>)
        requires
            old(self).wf(),
        ensures
            Parser::step(*old(self), *final(self)),
            Parser::valid_result(*final(self), r),
            r is Ok ==> old(self).pos() < final(self).pos(),
            Parser::outcome(group_scan(old(self).input(), old(self).pos()), r, final(self).pos()),
            final(self).table().len() < NODE_LIMIT ==> (r matches Ok(id) ==> node_means(
                final(self).table(),
                id as int,
                group_lang(old(self).input(), old(self).pos()),
            )),
            final(self).table().len() < NODE_LIMIT && group_lang(old(self).input(), old(self).pos()) is Some
                && no_complement(old(self).input(), old(self).pos(), final(self).pos()) ==> (r matches Ok(id)
                ==> complement_free(final(self).table(), id as int)),
        decreases old(self).input().len() - old(self).pos(), 6int,
    {
        let inner = match self.parse_alternation() {
            Ok(id) => id,
            Err(e) => {
                return Err(e);
            },
        };
        match self.expect(')') {
            Ok(()) => {},
            Err(e) => {
                return Err(e);
            },
        }
        Ok(inner)
    }

    /// The word characters `[a-zA-Z0-9_]`.
    fn word_charset() -> (r: CharSet)
        ensures
            forall|d: char| r.contains(d) <==> is_word_char(d),
            forall|d: char| r.contains(d) <==> (('a' <= d <= 'z') || ('A' <= d <= 'Z') || ('0' <= d <= '9') || d == '_'),
            forall|d: char| #[trigger] view_contains(r@, d) <==> (('a' <= d <= 'z') || ('A' <= d <= 'Z') || ('0' <= d
                <= '9') || d == '_'),
            r.is_normalized(),
    {
        let mut set = CharSet::range('a', 'z');
        set = set.union(&CharSet::range('A', 'Z'));
        set = set.union(&CharSet::range('0', '9'));
        set.insert('_');
        proof {
            assert forall|d: char| set.contains(d) <==> is_word_char(d) by {
                vstd::utf8::char_u32_cast(d, d as u32);
            }
            assert forall|d: char| set.contains(d) <==> (('a' <= d <= 'z') || ('A' <= d <= 'Z') || ('0' <= d <= '9')
                || d == '_') by {
                assert(set.contains(d) <==> is_word_char(d));
            }
            assert forall|d: char| #[trigger] view_contains(set@, d) <==> (('a' <= d <= 'z') || ('A' <= d <= 'Z') || ('0'
                <= d <= '9') || d == '_') by {
                assert(set.contains(d) <==> is_word_char(d));
            }
        }
        set
    }

    /// The whitespace characters `[ \t\n\r\x0C]`.
    fn whitespace_charset() -> (r: CharSet)
        ensures
            forall|d: char| r.contains(d) <==> is_space_char(d),
            forall|d: char| r.contains(d) <==> (d == ' ' || d == '\t' || d == '\n' || d == '\r' || d == '\x0C'),
            r.is_normalized(),
    {
        let mut set = CharSet::singleton(' ');
        set.insert('\t');
        set.insert('\n');
        set.insert('\r');
        set.insert('\x0C');
        set
    }

    /// Parses an escape: a character class (`\d`, `\w`, `\s` and their
    /// complements), an anchor (`\A`, `\z`), a word boundary (`\b`, `\B`),
    /// a control character (`\n`, `\r`, `\t`) or an escaped literal.
    #[verifier::rlimit(100)]
    #[verifier::spinoff_prover]
    fn parse_escape(&mut self) -> (r: Result<RegexNodeId, ParseError>)
        requires
            old(self).wf(),
        ensures
            Parser::step(*old(self), *final(self)),
            Parser::valid_result(*final(self), r),
            r is Ok ==> old(self).pos() < final(self).pos(),
            Parser::outcome(escape_scan(old(self).input(), old(self).pos()), r, final(self).pos()),
            final(self).table().len() < NODE_LIMIT && old(self).pos() + 1 < old(self).input().len()
                && !escape_is_anchor(old(self).input()[old(self).pos() + 1]) ==> (r matches Ok(id) ==> complement_free(
                final(self).table(),
                id as int,
            )),
            final(self).table().len() < NODE_LIMIT && old(self).pos() + 1 < old(self).input().len()
                && !escape_is_anchor(old(self).input()[old(self).pos() + 1]) ==> (r matches Ok(id) ==> plain(
                final(self).table(),
                id as int,
            ) && forall|w: Seq<char>|
                ascii_word(w) ==> #[trigger] accepts(final(self).table(), id as int, w) == (w.len() == 1 && escape_member(
                    old(self).input()[old(self).pos() + 1],
                    w[0],
                ))),
            final(self).table().len() < NODE_LIMIT && old(self).pos() + 1 < old(self).input().len()
                && old(self).input()[old(self).pos() + 1] == 'b' ==> (r matches Ok(id) ==> forall|s: Seq<char>, p: int|
                0 <= p <= s.len() ==> #[trigger] holds_at(final(self).table(), id as int, s, p) == (p < s.len() && word_at(
                s,
                p - 1,
            ) != word_at(s, p))),
            final(self).table().len() < NODE_LIMIT && old(self).pos() + 1 < old(self).input().len()
                && old(self).input()[old(self).pos() + 1] == 'B' ==> (r matches Ok(id) ==> forall|s: Seq<char>, p: int|
                0 <= p <= s.len() ==> #[trigger] holds_at(final(self).table(), id as int, s, p) == (word_at(s, p - 1)
                == word_at(s, p))),
    {
        match self.expect('\\') {
            Ok(()) => {},
            Err(e) => {
                return Err(e);
            },
        }
        match self.advance() {
            None => Err(self.error("Unexpected end after escape")),
            Some(c) => {
                if c == 'A' {
                    Ok(self.builder.mk_begin())
                } else if c == 'z' {
                    Ok(self.builder.mk_end())
                } else if c == 'b' {
                    // (?<=\w)(?!\w) | (?<!\w)(?=\w)
                    let ws1 = Self::word_charset();
                    let ghost cs1 = ws1@;
                    let word = self.builder.mk_singleton(ws1);
                    let ghost t1 = self.table();
                    let wsa = Self::word_charset();
                    let wsn = wsa.complement();
                    let ghost csn = wsn@;
                    proof {
                        assert forall|d: char| #[trigger] view_contains(csn, d) <==> !(('a' <= d <= 'z') || ('A' <= d <= 'Z')
                            || ('0' <= d <= '9') || d == '_') by {
                            assert(wsn.contains(d) <==> !wsa.contains(d));
                            assert(view_contains(wsa@, d) <==> (('a' <= d <= 'z') || ('A' <= d <= 'Z') || ('0' <= d
                                <= '9') || d == '_'));
                        }
                    }
                    let non_word = self.builder.mk_singleton(wsn);
                    let ghost t2 = self.table();
                    let lookbehind_word = self.builder.mk_lookbehind(word);
                    let ghost t3 = self.table();
                    let lookahead_non_word = self.builder.mk_lookahead(non_word);
                    let ghost t4 = self.table();
                    let word_to_nonword = self.builder.mk_concat(lookbehind_word, lookahead_non_word);
                    let ghost t5 = self.table();
                    let ws2 = Self::word_charset();
                    let ghost cs2 = ws2@;
                    let word2 = self.builder.mk_singleton(ws2);
                    let ghost t6 = self.table();
                    let preceded_by_word = self.builder.mk_lookbehind(word2);
                    let ghost t7 = self.table();
                    let not_preceded_by_word = self.builder.mk_not(preceded_by_word);
                    let ghost t8 = self.table();
                    let ws3 = Self::word_charset();
                    let ghost cs3 = ws3@;
                    let word3 = self.builder.mk_singleton(ws3);
                    let ghost t9 = self.table();
                    let lookahead_word = self.builder.mk_lookahead(word3);
                    let ghost t10 = self.table();
                    let nonword_to_word = self.builder.mk_concat(not_preceded_by_word, lookahead_word);
                    let ghost t11 = self.table();
                    let mut alts: Vec<RegexNodeId> = Vec::new();
                    alts.push(word_to_nonword);
                    alts.push(nonword_to_word);
                    proof {
                        assert(alts@ =~= seq![word_to_nonword, nonword_to_word]);
                        assert(all_below(alts@, self.table().len() as int)) by {
                            assert(alts@[0] == word_to_nonword && alts@[1] == nonword_to_word);
                        }
                    }
                    let r = self.builder.mk_or(alts);
                    proof {
                        let tf = self.table();
                        if tf.len() < NODE_LIMIT {
                            lemma_extends_trans(t10, t11, tf);
                            lemma_extends_trans(t9, t10, tf);
                            lemma_extends_trans(t8, t9, tf);
                            lemma_extends_trans(t7, t8, tf);
                            lemma_extends_trans(t6, t7, tf);
                            lemma_extends_trans(t5, t6, tf);
                            lemma_extends_trans(t4, t5, tf);
                            lemma_extends_trans(t3, t4, tf);
                            lemma_extends_trans(t2, t3, tf);
                            lemma_extends_trans(t1, t2, tf);
                            assert(table_wf(t11) && table_wf(tf));
                            assert(t11[0] == NodeView::<CharSetView>::Or(Seq::empty()));
                            assert(t11[3] is Loop);
                            assert(t1[0] == tf[0] && t1[3] == tf[3] && t2[0] == tf[0] && t2[3] == tf[3]);
                            assert(t6[0] == tf[0] && t6[3] == tf[3] && t9[0] == tf[0] && t9[3] == tf[3]);
                            assert(t1[word as int] is Singleton);
                            assert(t2[non_word as int] is Singleton);
                            assert(t6[word2 as int] is Singleton);
                            assert(t9[word3 as int] is Singleton);
                            assert(word != node_id::TOP_STAR && word != node_id::BOT);
                            assert(non_word != node_id::TOP_STAR && non_word != node_id::BOT);
                            assert(word2 != node_id::TOP_STAR && word2 != node_id::BOT);
                            assert(word3 != node_id::TOP_STAR && word3 != node_id::BOT);
                            assert(t7[preceded_by_word as int] is LookAround);
                            assert(tf[lookbehind_word as int] == t3[lookbehind_word as int]);
                            assert(tf[lookahead_non_word as int] == t4[lookahead_non_word as int]);
                            assert(tf[word_to_nonword as int] == t5[word_to_nonword as int]);
                            assert(tf[preceded_by_word as int] == t7[preceded_by_word as int]);
                            assert(tf[not_preceded_by_word as int] == t8[not_preceded_by_word as int]);
                            assert(tf[lookahead_word as int] == t10[lookahead_word as int]);
                            assert(tf[nonword_to_word as int] == t11[nonword_to_word as int]);
                            crate::semantics::lemma_extend_all(t1, tf, word as int);
                            crate::semantics::lemma_extend_all(t2, tf, non_word as int);
                            crate::semantics::lemma_extend_all(t6, tf, word2 as int);
                            crate::semantics::lemma_extend_all(t9, tf, word3 as int);
                            lemma_two_members(t11, word_to_nonword, nonword_to_word);
                            assert(tf[lookbehind_word as int]->LookAround_node == word);
                            assert forall|w: Seq<char>| #[trigger] accepts(tf, word as int, w) == (w.len() == 1
                                && view_contains(cs1, w[0])) by {
                                assert(accepts(t1, word as int, w) == (w.len() == 1 && view_contains(cs1, w[0])));
                            }
                            assert(word_look(tf, lookbehind_word as int, true, cs1));
                            assert(tf[lookahead_non_word as int]->LookAround_node == non_word);
                            assert forall|w: Seq<char>| #[trigger] accepts(tf, non_word as int, w) == (w.len() == 1
                                && view_contains(csn, w[0])) by {
                                assert(accepts(t2, non_word as int, w) == (w.len() == 1 && view_contains(csn, w[0])));
                            }
                            assert(tf[preceded_by_word as int]->LookAround_node == word2);
                            assert forall|w: Seq<char>| #[trigger] accepts(tf, word2 as int, w) == (w.len() == 1
                                && view_contains(cs2, w[0])) by {
                                assert(accepts(t6, word2 as int, w) == (w.len() == 1 && view_contains(cs2, w[0])));
                            }
                            assert(word_look(tf, preceded_by_word as int, true, cs2));
                            assert(tf[lookahead_word as int]->LookAround_node == word3);
                            assert forall|w: Seq<char>| #[trigger] accepts(tf, word3 as int, w) == (w.len() == 1
                                && view_contains(cs3, w[0])) by {
                                assert(accepts(t9, word3 as int, w) == (w.len() == 1 && view_contains(cs3, w[0])));
                            }
                            assert(word_look(tf, lookahead_word as int, false, cs3));
                            lemma_word_boundary(
                                tf,
                                r as int,
                                word_to_nonword,
                                nonword_to_word,
                                lookbehind_word,
                                lookahead_non_word,
                                not_preceded_by_word,
                                preceded_by_word,
                                lookahead_word,
                                cs1,
                                csn,
                                cs2,
                                cs3,
                            );
                        }
                    }
                    Ok(r)
                } else if c == 'B' {
                    // (?<=\w)(?=\w) | (?<!\w)(?!\w)
                    let ws1 = Self::word_charset();
                    let ghost cs1 = ws1@;
                    let word = self.builder.mk_singleton(ws1);
                    let ghost t1 = self.table();
                    let ws2 = Self::word_charset();
                    let ghost cs2 = ws2@;
                    let word2 = self.builder.mk_singleton(ws2);
                    let ghost t2 = self.table();
                    let ws3 = Self::word_charset();
                    let ghost cs3 = ws3@;
                    let word3 = self.builder.mk_singleton(ws3);
                    let ghost t3 = self.table();
                    let ws4 = Self::word_charset();
                    let ghost cs4 = ws4@;
                    let word4 = self.builder.mk_singleton(ws4);
                    let ghost t4 = self.table();
                    let lookbehind_word = self.builder.mk_lookbehind(word);
                    let ghost t5 = self.table();
                    let lookahead_word = self.builder.mk_lookahead(word2);
                    let ghost t6 = self.table();
                    let in_word = self.builder.mk_concat(lookbehind_word, lookahead_word);
                    let ghost t7 = self.table();
                    let preceded_by_word = self.builder.mk_lookbehind(word3);
                    let ghost t8 = self.table();
                    let not_preceded_by_word = self.builder.mk_not(preceded_by_word);
                    let ghost t9 = self.table();
                    let followed_by_word = self.builder.mk_lookahead(word4);
                    let ghost t10 = self.table();
                    let not_followed_by_word = self.builder.mk_not(followed_by_word);
                    let ghost t11 = self.table();
                    let outside_word = self.builder.mk_concat(not_preceded_by_word, not_followed_by_word);
                    let ghost t12 = self.table();
                    let mut alts: Vec<RegexNodeId> = Vec::new();
                    alts.push(in_word);
                    alts.push(outside_word);
                    proof {
                        assert(alts@ =~= seq![in_word, outside_word]);
                        assert(all_below(alts@, self.table().len() as int)) by {
                            assert(alts@[0] == in_word && alts@[1] == outside_word);
                        }
                    }
                    let r = self.builder.mk_or(alts);
                    proof {
                        let tf = self.table();
                        if tf.len() < NODE_LIMIT {
                            lemma_extends_trans(t11, t12, tf);
                            lemma_extends_trans(t10, t11, tf);
                            lemma_extends_trans(t9, t10, tf);
                            lemma_extends_trans(t8, t9, tf);
                            lemma_extends_trans(t7, t8, tf);
                            lemma_extends_trans(t6, t7, tf);
                            lemma_extends_trans(t5, t6, tf);
                            lemma_extends_trans(t4, t5, tf);
                            lemma_extends_trans(t3, t4, tf);
                            lemma_extends_trans(t2, t3, tf);
                            lemma_extends_trans(t1, t2, tf);
                            assert(table_wf(t12) && table_wf(tf));
                            assert(t12[0] == NodeView::<CharSetView>::Or(Seq::empty()));
                            assert(t12[3] is Loop);
                            assert(t1[0] == tf[0] && t1[3] == tf[3] && t2[0] == tf[0] && t2[3] == tf[3]);
                            assert(t3[0] == tf[0] && t3[3] == tf[3] && t4[0] == tf[0] && t4[3] == tf[3]);
                            assert(t1[word as int] is Singleton);
                            assert(t2[word2 as int] is Singleton);
                            assert(t3[word3 as int] is Singleton);
                            assert(t4[word4 as int] is Singleton);
                            assert(word != node_id::TOP_STAR && word != node_id::BOT);
                            assert(word2 != node_id::TOP_STAR && word2 != node_id::BOT);
                            assert(word3 != node_id::TOP_STAR && word3 != node_id::BOT);
                            assert(word4 != node_id::TOP_STAR && word4 != node_id::BOT);
                            assert(t8[preceded_by_word as int] is LookAround);
                            assert(t10[followed_by_word as int] is LookAround);
                            assert(tf[lookbehind_word as int] == t5[lookbehind_word as int]);
                            assert(tf[lookahead_word as int] == t6[lookahead_word as int]);
                            assert(tf[in_word as int] == t7[in_word as int]);
                            assert(tf[preceded_by_word as int] == t8[preceded_by_word as int]);
                            assert(tf[not_preceded_by_word as int] == t9[not_preceded_by_word as int]);
                            assert(tf[followed_by_word as int] == t10[followed_by_word as int]);
                            assert(tf[not_followed_by_word as int] == t11[not_followed_by_word as int]);
                            assert(tf[outside_word as int] == t12[outside_word as int]);
                            crate::semantics::lemma_extend_all(t1, tf, word as int);
                            crate::semantics::lemma_extend_all(t2, tf, word2 as int);
                            crate::semantics::lemma_extend_all(t3, tf, word3 as int);
                            crate::semantics::lemma_extend_all(t4, tf, word4 as int);
                            lemma_two_members(t12, in_word, outside_word);
                            assert(tf[lookbehind_word as int]->LookAround_node == word);
                            assert forall|w: Seq<char>| #[trigger] accepts(tf, word as int, w) == (w.len() == 1
                                && view_contains(cs1, w[0])) by {
                                assert(accepts(t1, word as int, w) == (w.len() == 1 && view_contains(cs1, w[0])));
                            }
                            assert(word_look(tf, lookbehind_word as int, true, cs1));
                            assert(tf[lookahead_word as int]->LookAround_node == word2);
                            assert forall|w: Seq<char>| #[trigger] accepts(tf, word2 as int, w) == (w.len() == 1
                                && view_contains(cs2, w[0])) by {
                                assert(accepts(t2, word2 as int, w) == (w.len() == 1 && view_contains(cs2, w[0])));
                            }
                            assert(word_look(tf, lookahead_word as int, false, cs2));
                            assert(tf[preceded_by_word as int]->LookAround_node == word3);
                            assert forall|w: Seq<char>| #[trigger] accepts(tf, word3 as int, w) == (w.len() == 1
                                && view_contains(cs3, w[0])) by {
                                assert(accepts(t3, word3 as int, w) == (w.len() == 1 && view_contains(cs3, w[0])));
                            }
                            assert(word_look(tf, preceded_by_word as int, true, cs3));
                            assert(tf[followed_by_word as int]->LookAround_node == word4);
                            assert forall|w: Seq<char>| #[trigger] accepts(tf, word4 as int, w) == (w.len() == 1
                                && view_contains(cs4, w[0])) by {
                                assert(accepts(t4, word4 as int, w) == (w.len() == 1 && view_contains(cs4, w[0])));
                            }
                            assert(word_look(tf, followed_by_word as int, false, cs4));
                            lemma_word_nonboundary(
                                tf,
                                r as int,
                                in_word,
                                outside_word,
                                lookbehind_word,
                                lookahead_word,
                                not_preceded_by_word,
                                not_followed_by_word,
                                preceded_by_word,
                                followed_by_word,
                                cs1,
                                cs2,
                                cs3,
                                cs4,
                            );
                        }
                    }
                    Ok(r)
                } else {
                    let set = escape_set(c);
                    Ok(self.builder.mk_singleton(set))
                }
            },
        }
    }

    /// Parses a bracketed class `[...]`, possibly negated with `^`, holding
    /// characters, ranges `a-z`, escapes and POSIX classes `[:name:]`.
    fn parse_char_class(&mut self) -> (r: Result<RegexNodeId, ParseError>)
        requires
            old(self).wf(),
        ensures
            Parser::step(*old(self), *final(self)),
            Parser::valid_result(*final(self), r),
            r is Ok ==> old(self).pos() < final(self).pos(),
            Parser::outcome(class_scan(old(self).input(), old(self).pos()), r, final(self).pos()),
            final(self).table().len() < NODE_LIMIT ==> (r matches Ok(id) ==> complement_free(final(self).table(), id as int)),
            final(self).table().len() < NODE_LIMIT ==> (r matches Ok(id) ==> plain(final(self).table(), id as int)
                && forall|w: Seq<char>|
                ascii_word(w) ==> #[trigger] accepts(final(self).table(), id as int, w) == (w.len() == 1 && class_member(
                    old(self).input(),
                    old(self).pos(),
                    w[0],
                ))),
    {
        match self.expect('[') {
            Ok(()) => {},
            Err(e) => {
                return Err(e);
            },
        }
        let negated = if self.peek() == Some('^') {
            self.advance();
            true
        } else {
            false
        };
        let ghost s = self.input();
        let ghost k0 = self.pos();
        let mut set = CharSet::empty();
        while self.peek() != Some(']') && self.peek().is_some()
            invariant
                self.wf(),
                self.input() == old(self).input(),
                s == self.input(),
                self.builder == old(self).builder,
                old(self).pos() < self.pos(),
                class_items_scan(s, self.pos()) == class_items_scan(s, k0),
                k0 == (if at(s, old(self).pos() + 1) == Some('^') {
                    old(self).pos() + 2
                } else {
                    old(self).pos() + 1
                }),
                negated == (at(s, old(self).pos() + 1) == Some('^')),
                forall|d: char|
                    (d as u32) < 128 ==> (class_items_member(s, k0, d) == (set.contains(d) || class_items_member(
                        s,
                        self.pos(),
                        d,
                    ))),
                class_scan(s, old(self).pos()) == (match class_items_scan(s, k0) {
                    Scan::Err(e) => Scan::Err(e),
                    Scan::Ok(m) => expect_scan(s, m, ']'),
                }),
            decreases self.input().len() - self.pos(),
        {
            let ghost p = self.pos();
            let ghost set0 = set;
            if self.peek() == Some('[') && self.peek_second() == Some(':') {
                match self.try_parse_posix_class() {
                    Ok(Some(posix_set)) => {
                        set = set.union(&posix_set);
                        proof {
                            assert(posix_scan(s, p) == Scan::Ok(self.pos()));
                            assert forall|d: char| (d as u32) < 128 implies class_items_member(s, p, d) == (
                            posix_set.contains(d) || class_items_member(s, self.pos(), d)) by {}
                            lemma_class_step(s, k0, p, self.pos(), set0, set, |d: char| posix_set.contains(d));
                        }
                        continue;
                    },
                    Ok(None) => {},
                    Err(e) => {
                        return Err(e);
                    },
                }
            }
            let c = match self.advance() {
                Some(c) => c,
                None => {
                    return Err(self.error("Unexpected end of input"));
                },
            };
            if self.peek() == Some('-') && self.peek_second() != Some(']') {
                self.advance();
                let end = match self.advance() {
                    Some(e) => e,
                    None => {
                        return Err(self.error("Expected end of range"));
                    },
                };
                set.insert_range(c, end);
                proof {
                    assert(class_item_scan(s, p) == Scan::Ok(self.pos()));
                    assert forall|d: char| (d as u32) < 128 implies class_items_member(s, p, d) == (in_range(
                        (c, end),
                        d,
                    ) || class_items_member(s, self.pos(), d)) by {}
                    lemma_class_step(s, k0, p, self.pos(), set0, set, |d: char| in_range((c, end), d));
                }
            } else if c == '\\' {
                let escaped = match self.advance() {
                    Some(e) => e,
                    None => {
                        return Err(self.error("Unexpected end after escape"));
                    },
                };
                add_class_escape(&mut set, escaped);
                proof {
                    assert(class_item_scan(s, p) == Scan::Ok(self.pos()));
                    assert forall|d: char| (d as u32) < 128 implies class_items_member(s, p, d) == (
                    class_escape_member(escaped, d) || class_items_member(s, self.pos(), d)) by {}
                    lemma_class_step(s, k0, p, self.pos(), set0, set, |d: char| class_escape_member(escaped, d));
                }
            } else {
                set.insert(c);
                proof {
                    assert(class_item_scan(s, p) == Scan::Ok(self.pos()));
                    assert forall|d: char| (d as u32) < 128 implies class_items_member(s, p, d) == (d == c
                        || class_items_member(s, self.pos(), d)) by {}
                    lemma_class_step(s, k0, p, self.pos(), set0, set, |d: char| d == c);
                }
            }
        }
        proof {
            assert forall|d: char| (d as u32) < 128 implies (set.contains(d) == class_items_member(s, k0, d)) by {
                assert(!class_items_member(s, self.pos(), d));
            }
        }
        match self.expect(']') {
            Ok(()) => {},
            Err(e) => {
                return Err(e);
            },
        }
        if negated {
            set = set.complement();
        }
        proof {
            assert forall|d: char| (d as u32) < 128 implies (set.contains(d) == class_member(s, old(self).pos(), d)) by {}
        }
        let ghost sv = set;
        let id = self.builder.mk_singleton(set);
        proof {
            if self.table().len() < NODE_LIMIT {
                assert forall|w: Seq<char>| ascii_word(w) implies #[trigger] accepts(self.table(), id as int, w) == (
                w.len() == 1 && class_member(s, old(self).pos(), w[0])) by {
                    if w.len() == 1 {
                        assert((w[0] as u32) < 128);
                        assert(sv.contains(w[0]) == class_member(s, old(self).pos(), w[0]));
                        assert(accepts(self.table(), id as int, w) == view_contains(sv@, w[0]));
                    }
                }
            }
        }
        Ok(id)
    }

    /// Parses a POSIX class `[:name:]` or `[:^name:]` inside a bracketed
    /// class; the next two characters are `[:`.
    fn try_parse_posix_class(&mut self) -> (r: Result<Option<CharSet>, ParseError>)
        requires
            old(self).wf(),
            old(self).pos() + 1 < old(self).input().len(),
        ensures
            final(self).wf(),
            final(self).input() == old(self).input(),
            final(self).builder == old(self).builder,
            old(self).pos() + 2 <= final(self).pos(),
            r matches Err(e) ==> e.position <= final(self).input().len(),
            r matches Ok(o) ==> o is Some,
            Parser::outcome(posix_scan(old(self).input(), old(self).pos()), r, final(self).pos()),
            r matches Ok(Some(set)) ==> forall|d: char|
                (d as u32) < 128 ==> (set.contains(d) <==> (posix_member(
                    old(self).input().subrange(posix_name_start(old(self).input(), old(self).pos()), final(self).pos() - 2),
                    d,
                ) != (at(old(self).input(), old(self).pos() + 2) == Some('^')))),
    {
        self.advance();
        self.advance();
        let negated = if self.peek() == Some('^') {
            self.advance();
            true
        } else {
            false
        };
        let mut name: Vec<char> = Vec::new();
        let ghost s = self.input();
        let ghost j0 = self.pos();
        proof {
            assert(j0 == posix_name_start(s, old(self).pos()));
        }
        loop
            invariant_except_break
                posix_name_scan(s, self.pos()) == posix_name_scan(s, j0),
            invariant
                self.wf(),
                self.input() == old(self).input(),
                s == self.input(),
                self.builder == old(self).builder,
                old(self).pos() + 2 <= j0 <= self.pos(),
                name@ == s.subrange(j0, self.pos()),
            ensures
                posix_name_scan(s, j0) == (if self.pos() < s.len() && s[self.pos()] != ':' {
                    Scan::Err((self.pos(), "Invalid POSIX class name"@))
                } else {
                    Scan::Ok(self.pos())
                }),
            decreases self.input().len() - self.pos(),
        {
            let c = match self.peek() {
                Some(c) => c,
                None => {
                    break;
                },
            };
            if c == ':' {
                break;
            }
            if !(('a' <= c && c <= 'z') || ('A' <= c && c <= 'Z')) {
                break;
            }
            name.push(c);
            self.advance();
            proof {
                assert(name@ =~= s.subrange(j0, self.pos()));
            }
        }
        if let Some(c) = self.peek() {
            if c != ':' {
                return Err(self.error("Invalid POSIX class name"));
            }
        }
        match self.expect(':') {
            Ok(()) => {},
            Err(e) => {
                return Err(e);
            },
        }
        match self.expect(']') {
            Ok(()) => {},
            Err(e) => {
                return Err(e);
            },
        }
        let mut set = match posix_set(&name) {
            Some(s) => s,
            None => {
                return Err(self.error_with(unknown_posix_message(&name)));
            },
        };
        if negated {
            set = set.complement();
        }
        Ok(Some(set))
    }
}

/// What a list of nodes accepts: all of them (`conj`) or any.
pub open spec fn list_accepts(t: NodeTable, ns: Seq<RegexNodeId>, conj: bool, w: Seq<char>) -> bool {
    if conj {
        all_accept(t, ns, w)
    } else {
        any_accepts(t, ns, w)
    }
}

/// Halfway through an alternation (or, with `conj`, an intersection): the
/// whole means the nodes read so far combined with the rest still to read.
#[verifier::opaque]
pub open spec fn list_inv(t: NodeTable, ns: Seq<RegexNodeId>, l0: Option<Lang>, lr: Option<Lang>, conj: bool) -> bool {
    l0 matches Some(f) ==> (lr matches Some(g) && all_plain(t, ns) && forall|w: Seq<char>|
        ascii_word(w) ==> #[trigger] f(w) == (if conj {
            list_accepts(t, ns, conj, w) && g(w)
        } else {
            list_accepts(t, ns, conj, w) || g(w)
        }))
}

/// At the end of an alternation (or intersection): the whole means the
/// nodes read.
pub open spec fn list_means(t: NodeTable, ns: Seq<RegexNodeId>, l0: Option<Lang>, conj: bool) -> bool {
    l0 matches Some(f) ==> all_plain(t, ns) && forall|w: Seq<char>|
        ascii_word(w) ==> #[trigger] f(w) == list_accepts(t, ns, conj, w)
}

/// Free of complements: the first intersection of an alternation.
proof fn lemma_or_start_cf(t: NodeTable, ns: Seq<RegexNodeId>, first: RegexNodeId, s: Seq<char>, p0: int, j: int)
    requires
        ns == seq![first],
        intersection_lang(s, p0) is Some && no_complement(s, p0, j) ==> complement_free(t, first as int),
    ensures
        alternation_lang(s, p0) is Some && no_complement(s, p0, j) ==> all_complement_free(t, ns),
{
    crate::semantics::lemma_any_single(t, ns, Seq::empty());
}

/// Free of complements: one more intersection of an alternation.
proof fn lemma_or_next_cf(
    t1: NodeTable,
    t2: NodeTable,
    ns: Seq<RegexNodeId>,
    n: RegexNodeId,
    s: Seq<char>,
    p0: int,
    q: int,
    k: int,
)
    requires
        table_extends(t1, t2),
        all_below(ns, t1.len() as int),
        list_inv(t1, ns, alternation_lang(s, p0), alternation_rest_lang(s, q), false),
        0 <= p0 <= q < s.len(),
        s[q] == '|',
        q + 1 <= k <= s.len(),
        alternation_lang(s, p0) is Some && no_complement(s, p0, q) ==> all_complement_free(t1, ns),
        intersection_lang(s, q + 1) is Some && no_complement(s, q + 1, k) ==> complement_free(t2, n as int),
    ensures
        alternation_lang(s, p0) is Some && no_complement(s, p0, k) ==> all_complement_free(t2, ns.push(n)),
{
    reveal(list_inv);
    crate::semantics::lemma_extend_lists(t1, t2, ns);
    crate::semantics::lemma_lists_push(t2, ns, n, t2.len() as int);
}

/// Free of complements: the first concatenation of an intersection.
proof fn lemma_and_start_cf(t: NodeTable, ns: Seq<RegexNodeId>, first: RegexNodeId, s: Seq<char>, p0: int, j: int)
    requires
        ns == seq![first],
        concat_lang(s, p0) is Some && no_complement(s, p0, j) ==> complement_free(t, first as int),
    ensures
        intersection_lang(s, p0) is Some && no_complement(s, p0, j) ==> all_complement_free(t, ns),
{
    crate::semantics::lemma_any_single(t, ns, Seq::empty());
}

/// Free of complements: one more concatenation of an intersection.
proof fn lemma_and_next_cf(
    t1: NodeTable,
    t2: NodeTable,
    ns: Seq<RegexNodeId>,
    n: RegexNodeId,
    s: Seq<char>,
    p0: int,
    q: int,
    k: int,
)
    requires
        table_extends(t1, t2),
        all_below(ns, t1.len() as int),
        list_inv(t1, ns, intersection_lang(s, p0), intersection_rest_lang(s, q), true),
        0 <= p0 <= q < s.len(),
        s[q] == '&',
        q + 1 <= k <= s.len(),
        intersection_lang(s, p0) is Some && no_complement(s, p0, q) ==> all_complement_free(t1, ns),
        concat_lang(s, q + 1) is Some && no_complement(s, q + 1, k) ==> complement_free(t2, n as int),
    ensures
        intersection_lang(s, p0) is Some && no_complement(s, p0, k) ==> all_complement_free(t2, ns.push(n)),
{
    reveal(list_inv);
    crate::semantics::lemma_extend_lists(t1, t2, ns);
    crate::semantics::lemma_lists_push(t2, ns, n, t2.len() as int);
}

/// Free of complements: one more quantified atom of a concatenation.
proof fn lemma_cat_next_cf(
    t1: NodeTable,
    t2: NodeTable,
    ns: Seq<RegexNodeId>,
    n: RegexNodeId,
    s: Seq<char>,
    p0: int,
    q: int,
    k: int,
)
    requires
        table_extends(t1, t2),
        all_below(ns, t1.len() as int),
        cat_inv(t1, ns, concat_lang(s, p0), concat_lang(s, q)),
        0 <= p0 <= q < s.len(),
        s[q] != '|' && s[q] != '&' && s[q] != ')',
        q < k <= s.len(),
        concat_lang(s, p0) is Some && no_complement(s, p0, q) ==> all_complement_free(t1, ns),
        quantified_lang(s, q) is Some && no_complement(s, q, k) ==> complement_free(t2, n as int),
    ensures
        concat_lang(s, p0) is Some && no_complement(s, p0, k) ==> all_complement_free(t2, ns.push(n)),
{
    reveal(cat_inv);
    crate::semantics::lemma_extend_lists(t1, t2, ns);
    crate::semantics::lemma_lists_push(t2, ns, n, t2.len() as int);
}

/// The first intersection of an alternation read.
proof fn lemma_or_start(t: NodeTable, ns: Seq<RegexNodeId>, first: RegexNodeId, s: Seq<char>, p0: int, j: int)
    requires
        ns == seq![first],
        intersection_scan(s, p0) == Scan::Ok(j),
        p0 <= j <= s.len(),
        node_means(t, first as int, intersection_lang(s, p0)),
    ensures
        list_inv(t, ns, alternation_lang(s, p0), alternation_rest_lang(s, j), false),
{
    reveal(list_inv);
    lemma_list_start(t, ns, first);
}

/// One more intersection of an alternation read.
proof fn lemma_or_next(
    t1: NodeTable,
    t2: NodeTable,
    ns: Seq<RegexNodeId>,
    n: RegexNodeId,
    s: Seq<char>,
    p0: int,
    q: int,
    k: int,
)
    requires
        table_extends(t1, t2),
        all_below(ns, t1.len() as int),
        n < t2.len(),
        list_inv(t1, ns, alternation_lang(s, p0), alternation_rest_lang(s, q), false),
        0 <= q < s.len(),
        s[q] == '|',
        intersection_scan(s, q + 1) == Scan::Ok(k),
        q + 1 <= k <= s.len(),
        node_means(t2, n as int, intersection_lang(s, q + 1)),
    ensures
        list_inv(t2, ns.push(n), alternation_lang(s, p0), alternation_rest_lang(s, k), false),
{
    reveal(list_inv);
    if let Some(l0) = alternation_lang(s, p0) {
        let lr = alternation_rest_lang(s, q)->0;
        let a = intersection_lang(s, q + 1)->0;
        let b = alternation_rest_lang(s, k)->0;
        crate::semantics::lemma_extend_lists(t1, t2, ns);
        crate::semantics::lemma_lists_push(t2, ns, n, t2.len() as int);
        assert forall|w: Seq<char>| ascii_word(w) implies #[trigger] l0(w) == (list_accepts(t2, ns.push(n), false, w)
            || b(w)) by {
            crate::semantics::lemma_any_push(t2, ns, n, w);
            assert(any_accepts(t2, ns, w) == any_accepts(t1, ns, w));
            assert(accepts(t2, n as int, w) == a(w));
            assert(l0(w) == (list_accepts(t1, ns, false, w) || lr(w)));
        }
    }
}

/// The end of an alternation: no `|` follows.
proof fn lemma_or_finish(t: NodeTable, ns: Seq<RegexNodeId>, s: Seq<char>, p0: int, e: int)
    requires
        list_inv(t, ns, alternation_lang(s, p0), alternation_rest_lang(s, e), false),
        !(0 <= e < s.len() && s[e] == '|'),
    ensures
        list_means(t, ns, alternation_lang(s, p0), false),
{
    reveal(list_inv);
}

/// The first concatenation of an intersection read.
proof fn lemma_and_start(t: NodeTable, ns: Seq<RegexNodeId>, first: RegexNodeId, s: Seq<char>, p0: int, j: int)
    requires
        ns == seq![first],
        concat_scan(s, p0) == Scan::Ok(j),
        p0 <= j <= s.len(),
        node_means(t, first as int, concat_lang(s, p0)),
    ensures
        list_inv(t, ns, intersection_lang(s, p0), intersection_rest_lang(s, j), true),
{
    reveal(list_inv);
    lemma_list_start(t, ns, first);
}

/// One more concatenation of an intersection read.
proof fn lemma_and_next(
    t1: NodeTable,
    t2: NodeTable,
    ns: Seq<RegexNodeId>,
    n: RegexNodeId,
    s: Seq<char>,
    p0: int,
    q: int,
    k: int,
)
    requires
        table_extends(t1, t2),
        all_below(ns, t1.len() as int),
        n < t2.len(),
        list_inv(t1, ns, intersection_lang(s, p0), intersection_rest_lang(s, q), true),
        0 <= q < s.len(),
        s[q] == '&',
        concat_scan(s, q + 1) == Scan::Ok(k),
        q + 1 <= k <= s.len(),
        node_means(t2, n as int, concat_lang(s, q + 1)),
    ensures
        list_inv(t2, ns.push(n), intersection_lang(s, p0), intersection_rest_lang(s, k), true),
{
    reveal(list_inv);
    if let Some(l0) = intersection_lang(s, p0) {
        let lr = intersection_rest_lang(s, q)->0;
        let a = concat_lang(s, q + 1)->0;
        let b = intersection_rest_lang(s, k)->0;
        crate::semantics::lemma_extend_lists(t1, t2, ns);
        crate::semantics::lemma_lists_push(t2, ns, n, t2.len() as int);
        assert forall|w: Seq<char>| ascii_word(w) implies #[trigger] l0(w) == (list_accepts(t2, ns.push(n), true, w)
            && b(w)) by {
            crate::semantics::lemma_any_push(t2, ns, n, w);
            assert(all_accept(t2, ns, w) == all_accept(t1, ns, w));
            assert(accepts(t2, n as int, w) == a(w));
            assert(l0(w) == (list_accepts(t1, ns, true, w) && lr(w)));
        }
    }
}

/// The end of an intersection: no `&` follows.
proof fn lemma_and_finish(t: NodeTable, ns: Seq<RegexNodeId>, s: Seq<char>, p0: int, e: int)
    requires
        list_inv(t, ns, intersection_lang(s, p0), intersection_rest_lang(s, e), true),
        !(0 <= e < s.len() && s[e] == '&'),
    ensures
        list_means(t, ns, intersection_lang(s, p0), true),
{
    reveal(list_inv);
}

/// `EPS` means the empty word.
proof fn lemma_eps_node(t: NodeTable)
    requires
        crate::semantics::table_wf(t),
    ensures
        node_means(t, crate::types::node_id::EPS as int, Some(eps_lang())),
{
    crate::semantics::lemma_builtins_plain(t);
    assert forall|w: Seq<char>| ascii_word(w) implies #[trigger] accepts(t, 1, w) == eps_lang()(w) by {
        crate::semantics::lemma_eps_bot(t, w);
    }
}

/// The complement of a node that means `a` means the words not in `a`.
proof fn lemma_not_node(t1: NodeTable, t2: NodeTable, inner: RegexNodeId, id: RegexNodeId, l: Option<Lang>)
    requires
        table_extends(t1, t2),
        inner < t1.len(),
        node_means(t1, inner as int, l),
        plain(t1, inner as int) ==> plain(t2, id as int),
        forall|w: Seq<char>| #[trigger] accepts(t2, id as int, w) == !accepts(t2, inner as int, w),
    ensures
        node_means(
            t2,
            id as int,
            match l {
                Some(a) => Some(not_lang(a)),
                None => None,
            },
        ),
{
    if let Some(a) = l {
        lemma_means_extend(t1, t2, inner as int, l);
        assert forall|w: Seq<char>| ascii_word(w) implies #[trigger] accepts(t2, id as int, w) == not_lang(a)(w) by {
            assert(accepts(t2, inner as int, w) == a(w));
        }
    }
}

/// A node of one character from a set means the characters that satisfy
/// `p`, where the set holds exactly those among ASCII characters.
proof fn lemma_char_node(t: NodeTable, id: RegexNodeId, set: CharSet, p: spec_fn(char) -> bool)
    requires
        plain(t, id as int),
        forall|w: Seq<char>| #[trigger] accepts(t, id as int, w) == (w.len() == 1 && view_contains(set@, w[0])),
        forall|d: char| (d as u32) < 128 ==> (set.contains(d) == p(d)),
    ensures
        node_means(t, id as int, Some(char_lang(p))),
{
    assert forall|w: Seq<char>| ascii_word(w) implies #[trigger] accepts(t, id as int, w) == (w.len() == 1 && p(w[0])) by {
        if w.len() == 1 {
            assert((w[0] as u32) < 128);
            assert(set.contains(w[0]) == p(w[0]));
        }
    }
    lemma_char_meaning(t, id, p);
}

/// A plain node that accepts the one-character ASCII words of `p` means
/// `p`.
proof fn lemma_char_meaning(t: NodeTable, id: RegexNodeId, p: spec_fn(char) -> bool)
    requires
        plain(t, id as int),
        forall|w: Seq<char>| ascii_word(w) ==> #[trigger] accepts(t, id as int, w) == (w.len() == 1 && p(w[0])),
    ensures
        node_means(t, id as int, Some(char_lang(p))),
{
}

/// A loop over a node that means `a` means the repetition of `a`.
proof fn lemma_loop_node(
    t1: NodeTable,
    t2: NodeTable,
    node: RegexNodeId,
    id: RegexNodeId,
    l: Option<Lang>,
    low: u32,
    high: u32,
)
    requires
        table_extends(t1, t2),
        node < t1.len(),
        node_means(t1, node as int, l),
        plain(t1, node as int) ==> plain(t2, id as int),
        forall|w: Seq<char>| #[trigger] accepts(t2, id as int, w) == loop_accepts(t2, node as int, low, high, w),
    ensures
        node_means(
            t2,
            id as int,
            match l {
                Some(a) => Some(rep_lang(a, low, high)),
                None => None,
            },
        ),
{
    if let Some(a) = l {
        lemma_means_extend(t1, t2, node as int, l);
        assert forall|w: Seq<char>| ascii_word(w) implies #[trigger] accepts(t2, id as int, w) == rep_lang(a, low, high)(
            w,
        ) by {
            crate::meaning::lemma_loop_means(t2, node as int, a, low, high, w);
        }
    }
}

/// Halfway through a concatenation: the whole means the words of the nodes
/// read so far followed by a word of the rest.
#[verifier::opaque]
pub open spec fn cat_inv(t: NodeTable, ns: Seq<RegexNodeId>, l0: Option<Lang>, lr: Option<Lang>) -> bool {
    l0 matches Some(f) ==> (lr matches Some(g) && all_plain(t, ns) && forall|w: Seq<char>|
        ascii_word(w) ==> #[trigger] f(w) == concat_with(t, ns, g, w))
}

/// At the end of a concatenation: the whole means the words of the nodes
/// in turn.
pub open spec fn cat_means(t: NodeTable, ns: Seq<RegexNodeId>, l0: Option<Lang>) -> bool {
    l0 matches Some(f) ==> all_plain(t, ns) && forall|w: Seq<char>|
        ascii_word(w) ==> #[trigger] f(w) == concat_all_accepts(t, ns, w)
}

/// Nothing of a concatenation read yet.
proof fn lemma_cat_start(t: NodeTable, s: Seq<char>, p0: int)
    ensures
        cat_inv(t, Seq::empty(), concat_lang(s, p0), concat_lang(s, p0)),
{
    reveal(cat_inv);
    if let Some(f) = concat_lang(s, p0) {
        assert forall|w: Seq<char>| ascii_word(w) implies #[trigger] f(w) == concat_with(t, Seq::empty(), f, w) by {}
    }
}

/// One more quantified atom of a concatenation read.
proof fn lemma_cat_next(
    t1: NodeTable,
    t2: NodeTable,
    ns: Seq<RegexNodeId>,
    n: RegexNodeId,
    s: Seq<char>,
    p0: int,
    q: int,
    k: int,
)
    requires
        table_extends(t1, t2),
        all_below(ns, t1.len() as int),
        n < t2.len(),
        cat_inv(t1, ns, concat_lang(s, p0), concat_lang(s, q)),
        0 <= q < s.len(),
        s[q] != '|' && s[q] != '&' && s[q] != ')',
        quantified_scan(s, q) == Scan::Ok(k),
        q < k <= s.len(),
        node_means(t2, n as int, quantified_lang(s, q)),
    ensures
        cat_inv(t2, ns.push(n), concat_lang(s, p0), concat_lang(s, k)),
{
    reveal(cat_inv);
    if let Some(f) = concat_lang(s, p0) {
        let a = quantified_lang(s, q)->0;
        let b = concat_lang(s, k)->0;
        let lr = concat_lang(s, q)->0;
        crate::semantics::lemma_extend_lists(t1, t2, ns);
        crate::semantics::lemma_lists_push(t2, ns, n, t2.len() as int);
        assert forall|w: Seq<char>| ascii_word(w) implies #[trigger] f(w) == concat_with(t2, ns.push(n), b, w) by {
            lemma_concat_with_extend(t1, t2, ns, lr, w);
            lemma_concat_with_push(t2, ns, n, a, b, w);
            assert(lr == cat_lang(a, b));
        }
    }
}

/// The end of a concatenation: `|`, `&`, `)` or the end of the pattern.
proof fn lemma_cat_finish(t: NodeTable, ns: Seq<RegexNodeId>, s: Seq<char>, p0: int, e: int)
    requires
        cat_inv(t, ns, concat_lang(s, p0), concat_lang(s, e)),
        !(0 <= e < s.len() && s[e] != '|' && s[e] != '&' && s[e] != ')'),
    ensures
        cat_means(t, ns, concat_lang(s, p0)),
{
    reveal(cat_inv);
    if let Some(f) = concat_lang(s, p0) {
        assert forall|w: Seq<char>| ascii_word(w) implies #[trigger] f(w) == concat_all_accepts(t, ns, w) by {
            lemma_concat_with_end(t, ns, w);
        }
    }
}

/// An empty concatenation means the empty word, which `EPS` accepts.
proof fn lemma_cat_empty(t: NodeTable, ns: Seq<RegexNodeId>, l0: Option<Lang>)
    requires
        crate::semantics::table_wf(t),
        ns.len() == 0,
        cat_means(t, ns, l0),
    ensures
        node_means(t, crate::types::node_id::EPS as int, l0),
{
    crate::semantics::lemma_builtins_plain(t);
    if let Some(f) = l0 {
        assert forall|w: Seq<char>| ascii_word(w) implies #[trigger] accepts(t, 1, w) == f(w) by {
            crate::semantics::lemma_eps_bot(t, w);
        }
    }
}

/// A concatenation of one node means what that node means.
proof fn lemma_cat_single(t: NodeTable, ns: Seq<RegexNodeId>, l0: Option<Lang>)
    requires
        ns.len() == 1,
        cat_means(t, ns, l0),
    ensures
        node_means(t, ns[0] as int, l0),
{
    if let Some(f) = l0 {
        assert(plain(t, ns[0] as int));
        assert forall|w: Seq<char>| ascii_word(w) implies #[trigger] accepts(t, ns[0] as int, w) == f(w) by {
            let rest = ns.subrange(1, 1);
            assert(rest =~= Seq::<RegexNodeId>::empty());
            if accepts(t, ns[0] as int, w) {
                assert(w.subrange(0, w.len() as int) =~= w);
                assert(concat_all_accepts(t, rest, w.subrange(w.len() as int, w.len() as int)));
            }
            if concat_all_accepts(t, ns, w) {
                let i = choose|i: int|
                    0 <= i <= w.len() && accepts(t, ns[0] as int, #[trigger] w.subrange(0, i)) && concat_all_accepts(
                        t,
                        ns.subrange(1, ns.len() as int),
                        w.subrange(i, w.len() as int),
                    );
                assert(i == w.len());
                assert(w.subrange(0, i) =~= w);
            }
        }
    }
}

/// The node built over the nodes of a concatenation means what they mean
/// in turn.
proof fn lemma_cat_end(t1: NodeTable, t2: NodeTable, ns: Seq<RegexNodeId>, id: RegexNodeId, l0: Option<Lang>)
    requires
        table_extends(t1, t2),
        all_below(ns, t1.len() as int),
        cat_means(t1, ns, l0),
        all_plain(t1, ns) ==> plain(t2, id as int),
        forall|w: Seq<char>| #[trigger] accepts(t2, id as int, w) == concat_all_accepts(t2, ns, w),
    ensures
        node_means(t2, id as int, l0),
{
    if let Some(f) = l0 {
        assert forall|w: Seq<char>| ascii_word(w) implies #[trigger] accepts(t2, id as int, w) == f(w) by {
            crate::semantics::lemma_extend_concat_all(t1, t2, ns, w);
        }
    }
}

/// A list of plain nodes does not hold the placeholder `TOP`.
proof fn lemma_no_top(t: NodeTable, ns: Seq<RegexNodeId>)
    requires
        crate::semantics::table_wf(t),
        all_plain(t, ns),
    ensures
        !ns.contains(crate::types::node_id::TOP),
{
    crate::semantics::lemma_builtins_plain(t);
    if ns.contains(crate::types::node_id::TOP) {
        let k = choose|k: int| 0 <= k < ns.len() && ns[k] == crate::types::node_id::TOP;
        assert(plain(t, ns[k] as int));
    }
}

/// A list of one node means what that node means.
proof fn lemma_list_single(t: NodeTable, ns: Seq<RegexNodeId>, l0: Option<Lang>, conj: bool)
    requires
        ns.len() == 1,
        list_means(t, ns, l0, conj),
    ensures
        node_means(t, ns[0] as int, l0),
{
    if let Some(f) = l0 {
        assert(plain(t, ns[0] as int));
        assert forall|w: Seq<char>| ascii_word(w) implies #[trigger] accepts(t, ns[0] as int, w) == f(w) by {
            crate::semantics::lemma_any_single(t, ns, w);
        }
    }
}

/// The node built over a list of nodes, which accepts what the list
/// accepts, means what the list means.
proof fn lemma_list_end(
    t1: NodeTable,
    t2: NodeTable,
    ns: Seq<RegexNodeId>,
    id: RegexNodeId,
    l0: Option<Lang>,
    conj: bool,
)
    requires
        table_extends(t1, t2),
        all_below(ns, t1.len() as int),
        list_means(t1, ns, l0, conj),
        l0 is Some ==> plain(t2, id as int),
        l0 is Some ==> forall|w: Seq<char>| #[trigger] accepts(t2, id as int, w) == list_accepts(t2, ns, conj, w),
    ensures
        node_means(t2, id as int, l0),
{
    if let Some(f) = l0 {
        crate::semantics::lemma_extend_lists(t1, t2, ns);
        assert forall|w: Seq<char>| ascii_word(w) implies #[trigger] accepts(t2, id as int, w) == f(w) by {
            assert(list_accepts(t2, ns, conj, w) == list_accepts(t1, ns, conj, w));
        }
    }
}

/// A list of one node that means `a`: any and all of the list are `a`.
proof fn lemma_list_start(t: NodeTable, ns: Seq<RegexNodeId>, n: RegexNodeId)
    requires
        ns == seq![n],
    ensures
        all_plain(t, ns) == plain(t, n as int),
        forall|w: Seq<char>| #[trigger] any_accepts(t, ns, w) == accepts(t, n as int, w),
        forall|w: Seq<char>| #[trigger] all_accept(t, ns, w) == accepts(t, n as int, w),
{
    assert forall|w: Seq<char>| #[trigger] any_accepts(t, ns, w) == accepts(t, n as int, w) by {
        crate::semantics::lemma_any_single(t, ns, w);
    }
    assert forall|w: Seq<char>| #[trigger] all_accept(t, ns, w) == accepts(t, n as int, w) by {
        crate::semantics::lemma_any_single(t, ns, w);
    }
    crate::semantics::lemma_any_single(t, ns, Seq::empty());
}

/// One item of a bracketed class read: the set so far and the items still
/// to read keep meaning the class.
proof fn lemma_class_step(
    s: Seq<char>,
    k0: int,
    p: int,
    q: int,
    set0: CharSet,
    set1: CharSet,
    here: spec_fn(char) -> bool,
)
    requires
        forall|d: char|
            (d as u32) < 128 ==> (#[trigger] class_items_member(s, k0, d) == (set0.contains(d) || class_items_member(
                s,
                p,
                d,
            ))),
        forall|d: char| (d as u32) < 128 ==> (#[trigger] class_items_member(s, p, d) == (here(d) || class_items_member(s, q, d))),
        forall|d: char| #[trigger] set1.contains(d) == (set0.contains(d) || here(d)),
    ensures
        forall|d: char|
            (d as u32) < 128 ==> (#[trigger] class_items_member(s, k0, d) == (set1.contains(d) || class_items_member(
                s,
                q,
                d,
            ))),
{
    assert forall|d: char| (d as u32) < 128 implies (#[trigger] class_items_member(s, k0, d) == (set1.contains(d)
        || class_items_member(s, q, d))) by {
        assert(class_items_member(s, p, d) == (here(d) || class_items_member(s, q, d)));
        assert(set1.contains(d) == (set0.contains(d) || here(d)));
    }
}

/// Adds to `set` what the escape `\e` stands for inside a bracketed class.
fn add_class_escape(cs: &mut CharSet, e: char)
    ensures
        forall|d: char| #[trigger] final(cs).contains(d) <==> (old(cs).contains(d) || class_escape_member(e, d)),
        e == 'd' ==> forall|d: char| #[trigger] final(cs).contains(d) <==> (old(cs).contains(d) || ('0' <= d <= '9')),
        e == 'w' ==> forall|d: char| #[trigger] final(cs).contains(d) <==> (old(cs).contains(d) || (('a' <= d <= 'z') || ('A' <= d <= 'Z') || ('0' <= d <= '9') || d == '_')),
        e == 's' ==> forall|d: char| #[trigger] final(cs).contains(d) <==> (old(cs).contains(d) || (d == ' ' || d == '\t' || d == '\n' || d == '\r' || d == '\x0C')),
{
    let ghost s0 = *cs;
    if e == 'n' {
        cs.insert('\n');
    } else if e == 'r' {
        cs.insert('\r');
    } else if e == 't' {
        cs.insert('\t');
    } else if e == 'd' {
        *cs = cs.union(&CharSet::range('0', '9'));
    } else if e == 'w' {
        *cs = cs.union(&CharSet::range('a', 'z'));
        *cs = cs.union(&CharSet::range('A', 'Z'));
        *cs = cs.union(&CharSet::range('0', '9'));
        cs.insert('_');
    } else if e == 's' {
        cs.insert(' ');
        cs.insert('\t');
        cs.insert('\n');
        cs.insert('\r');
        cs.insert('\x0C');
    } else {
        cs.insert(e);
    }
    proof {
        assert forall|d: char| cs.contains(d) <==> (s0.contains(d) || class_escape_member(e, d)) by {
            vstd::utf8::char_u32_cast(d, d as u32);
        }
    }
}

/// The set that an escape `\e` other than an anchor stands for, on ASCII
/// characters.
fn escape_set(e: char) -> (r: CharSet)
    requires
        !escape_is_anchor(e),
    ensures
        forall|d: char| (d as u32) < 128 ==> (r.contains(d) <==> escape_member(e, d)),
        e == 'n' ==> forall|d: char| r.contains(d) <==> d == '\n',
        e == 'r' ==> forall|d: char| r.contains(d) <==> d == '\r',
        e == 't' ==> forall|d: char| r.contains(d) <==> d == '\t',
        e == 'd' ==> forall|d: char| r.contains(d) <==> ('0' <= d <= '9'),
        e == 'D' ==> forall|d: char| r.contains(d) <==> !('0' <= d <= '9'),
        e == 'w' ==> forall|d: char| r.contains(d) <==> (('a' <= d <= 'z') || ('A' <= d <= 'Z') || ('0' <= d <= '9') || d == '_'),
        e == 'W' ==> forall|d: char| r.contains(d) <==> !(('a' <= d <= 'z') || ('A' <= d <= 'Z') || ('0' <= d <= '9') || d == '_'),
        e == 's' ==> forall|d: char| r.contains(d) <==> (d == ' ' || d == '\t' || d == '\n' || d == '\r' || d == '\x0C'),
        e == 'S' ==> forall|d: char| r.contains(d) <==> !(d == ' ' || d == '\t' || d == '\n' || d == '\r' || d == '\x0C'),
{
    let r = if e == 'n' {
        CharSet::singleton('\n')
    } else if e == 'r' {
        CharSet::singleton('\r')
    } else if e == 't' {
        CharSet::singleton('\t')
    } else if e == 'd' {
        CharSet::range('0', '9')
    } else if e == 'w' {
        Parser::word_charset()
    } else if e == 's' {
        Parser::whitespace_charset()
    } else if e == 'D' {
        let digits = CharSet::range('0', '9');
        proof {
            assert(digits.is_normalized());
        }
        digits.complement()
    } else if e == 'W' {
        Parser::word_charset().complement()
    } else if e == 'S' {
        Parser::whitespace_charset().complement()
    } else {
        CharSet::singleton(e)
    };
    proof {
        assert forall|d: char| (d as u32) < 128 implies (r.contains(d) <==> escape_member(e, d)) by {
            vstd::utf8::char_u32_cast(d, d as u32);
        }
        assert forall|d: char|
            (e == 'd' ==> (r.contains(d) <==> ('0' <= d <= '9'))) && (e == 'D' ==> (r.contains(d) <==> !('0' <= d
                <= '9'))) by {
            vstd::utf8::char_u32_cast(d, d as u32);
        }
    }
    r
}

/// A run of digits from `i` that ends at `j` is the run that
/// `digits_end` finds.
proof fn lemma_digits_end(s: Seq<char>, i: int, j: int)
    requires
        0 <= i <= j <= s.len(),
        forall|k: int| i <= k < j ==> is_digit(#[trigger] s[k]),
        j < s.len() ==> !is_digit(s[j]),
    ensures
        digits_end(s, i) == j,
    decreases j - i,
{
    if i < j {
        lemma_digits_end(s, i + 1, j);
    }
}

/// Whether `a` spells the same characters as `b`.
fn chars_eq(a: &Vec<char>, b: &[char]) -> (r: bool)
    ensures
        r == (a@ == b@),
{
    if a.len() != b.len() {
        return false;
    }
    let mut i: usize = 0;
    while i < a.len()
        invariant
            a@.len() == b@.len(),
            i <= a@.len(),
            forall|j: int| 0 <= j < i ==> a@[j] == b@[j],
        decreases a@.len() - i,
    {
        if a[i] != b[i] {
            return false;
        }
        i = i + 1;
    }
    proof {
        assert(a@ =~= b@);
    }
    true
}

/// The POSIX class names that are known.
pub open spec fn posix_known(name: Seq<char>) -> bool {
    name == seq!['a', 'l', 'p', 'h', 'a'] || name == seq!['d', 'i', 'g', 'i', 't'] || name == seq![
        'a',
        'l',
        'n',
        'u',
        'm',
    ] || name == seq!['s', 'p', 'a', 'c', 'e'] || name == seq!['u', 'p', 'p', 'e', 'r'] || name == seq![
        'l',
        'o',
        'w',
        'e',
        'r',
    ] || name == seq!['w', 'o', 'r', 'd'] || name == seq!['x', 'd', 'i', 'g', 'i', 't'] || name == seq![
        'p',
        'u',
        'n',
        'c',
        't',
    ] || name == seq!['b', 'l', 'a', 'n', 'k'] || name == seq!['c', 'n', 't', 'r', 'l'] || name == seq![
        'g',
        'r',
        'a',
        'p',
        'h',
    ] || name == seq!['p', 'r', 'i', 'n', 't'] || name == seq!['a', 's', 'c', 'i', 'i']
}

/// The ASCII punctuation characters of `[:punct:]`.
pub open spec fn is_punct_char(c: char) -> bool {
    ('!' <= c <= '/') || (':' <= c <= '@') || ('[' <= c <= '`') || ('{' <= c <= '~')
}

/// Whether `c` belongs to the POSIX class called `name`.
pub open spec fn posix_member(name: Seq<char>, c: char) -> bool {
    if name == seq!['a', 'l', 'p', 'h', 'a'] {
        ('a' <= c <= 'z') || ('A' <= c <= 'Z')
    } else if name == seq!['d', 'i', 'g', 'i', 't'] {
        '0' <= c <= '9'
    } else if name == seq!['a', 'l', 'n', 'u', 'm'] {
        ('a' <= c <= 'z') || ('A' <= c <= 'Z') || ('0' <= c <= '9')
    } else if name == seq!['s', 'p', 'a', 'c', 'e'] {
        c == ' ' || c == '\t' || c == '\n' || c == '\r' || c == '\x0B' || c == '\x0C'
    } else if name == seq!['u', 'p', 'p', 'e', 'r'] {
        'A' <= c <= 'Z'
    } else if name == seq!['l', 'o', 'w', 'e', 'r'] {
        'a' <= c <= 'z'
    } else if name == seq!['w', 'o', 'r', 'd'] {
        is_word_char(c)
    } else if name == seq!['x', 'd', 'i', 'g', 'i', 't'] {
        ('0' <= c <= '9') || ('a' <= c <= 'f') || ('A' <= c <= 'F')
    } else if name == seq!['p', 'u', 'n', 'c', 't'] {
        is_punct_char(c)
    } else if name == seq!['b', 'l', 'a', 'n', 'k'] {
        c == ' ' || c == '\t'
    } else if name == seq!['c', 'n', 't', 'r', 'l'] {
        ('\x00' <= c <= '\x1F') || c == '\x7F'
    } else if name == seq!['g', 'r', 'a', 'p', 'h'] {
        '!' <= c <= '~'
    } else if name == seq!['p', 'r', 'i', 'n', 't'] {
        ' ' <= c <= '~'
    } else if name == seq!['a', 's', 'c', 'i', 'i'] {
        '\x00' <= c <= '\x7F'
    } else {
        false
    }
}

/// The set of a POSIX class, by name.
fn posix_set(name: &Vec<char>) -> (r: Option<CharSet>)
    ensures
        r is Some <==> posix_known(name@),
        r matches Some(s) ==> forall|d: char| s.contains(d) <==> posix_member(name@, d),
        name@ == seq!['a', 'l', 'p', 'h', 'a'] ==> (r matches Some(s) && forall|d: char| s.contains(d) <==> (('a' <= d <= 'z') || ('A' <= d <= 'Z'))),
        name@ == seq!['d', 'i', 'g', 'i', 't'] ==> (r matches Some(s) && forall|d: char| s.contains(d) <==> ('0' <= d <= '9')),
        name@ == seq!['a', 'l', 'n', 'u', 'm'] ==> (r matches Some(s) && forall|d: char| s.contains(d) <==> (('a' <= d <= 'z') || ('A' <= d <= 'Z') || ('0' <= d <= '9'))),
        name@ == seq!['s', 'p', 'a', 'c', 'e'] ==> (r matches Some(s) && forall|d: char| s.contains(d) <==> (d == ' ' || d == '\t' || d == '\n' || d == '\r' || d == '\x0B' || d == '\x0C')),
        name@ == seq!['u', 'p', 'p', 'e', 'r'] ==> (r matches Some(s) && forall|d: char| s.contains(d) <==> ('A' <= d <= 'Z')),
        name@ == seq!['l', 'o', 'w', 'e', 'r'] ==> (r matches Some(s) && forall|d: char| s.contains(d) <==> ('a' <= d <= 'z')),
        name@ == seq!['w', 'o', 'r', 'd'] ==> (r matches Some(s) && forall|d: char| s.contains(d) <==> ((('a' <= d <= 'z') || ('A' <= d <= 'Z') || ('0' <= d <= '9') || d == '_'))),
        name@ == seq!['x', 'd', 'i', 'g', 'i', 't'] ==> (r matches Some(s) && forall|d: char| s.contains(d) <==> (('0' <= d <= '9') || ('a' <= d <= 'f') || ('A' <= d <= 'F'))),
        name@ == seq!['p', 'u', 'n', 'c', 't'] ==> (r matches Some(s) && forall|d: char| s.contains(d) <==> ((('!' <= d <= '/') || (':' <= d <= '@') || ('[' <= d <= '`') || ('{' <= d <= '~')))),
        name@ == seq!['b', 'l', 'a', 'n', 'k'] ==> (r matches Some(s) && forall|d: char| s.contains(d) <==> (d == ' ' || d == '\t')),
        name@ == seq!['c', 'n', 't', 'r', 'l'] ==> (r matches Some(s) && forall|d: char| s.contains(d) <==> (('\x00' <= d <= '\x1F') || d == '\x7F')),
        name@ == seq!['g', 'r', 'a', 'p', 'h'] ==> (r matches Some(s) && forall|d: char| s.contains(d) <==> ('!' <= d <= '~')),
        name@ == seq!['p', 'r', 'i', 'n', 't'] ==> (r matches Some(s) && forall|d: char| s.contains(d) <==> (' ' <= d <= '~')),
        name@ == seq!['a', 's', 'c', 'i', 'i'] ==> (r matches Some(s) && forall|d: char| s.contains(d) <==> ('\x00' <= d <= '\x7F')),
{
    if chars_eq(name, &['a', 'l', 'p', 'h', 'a']) {
        let mut s = CharSet::range('a', 'z');
        s = s.union(&CharSet::range('A', 'Z'));
        proof {
            assert(name@ =~= seq!['a', 'l', 'p', 'h', 'a']);
            assert forall|d: char| s.contains(d) <==> posix_member(name@, d) by {
                vstd::utf8::char_u32_cast(d, d as u32);
            }
        }
        return Some(s);
    }
    if chars_eq(name, &['d', 'i', 'g', 'i', 't']) {
        let s = CharSet::range('0', '9');
        proof {
            assert(name@ =~= seq!['d', 'i', 'g', 'i', 't']);
            assert forall|d: char| s.contains(d) <==> posix_member(name@, d) by {
                vstd::utf8::char_u32_cast(d, d as u32);
            }
        }
        return Some(s);
    }
    if chars_eq(name, &['a', 'l', 'n', 'u', 'm']) {
        let mut s = CharSet::range('a', 'z');
        s = s.union(&CharSet::range('A', 'Z'));
        s = s.union(&CharSet::range('0', '9'));
        proof {
            assert(name@ =~= seq!['a', 'l', 'n', 'u', 'm']);
            assert forall|d: char| s.contains(d) <==> posix_member(name@, d) by {
                vstd::utf8::char_u32_cast(d, d as u32);
            }
        }
        return Some(s);
    }
    if chars_eq(name, &['s', 'p', 'a', 'c', 'e']) {
        let mut s = CharSet::singleton(' ');
        s.insert('\t');
        s.insert('\n');
        s.insert('\r');
        s.insert('\x0B');
        s.insert('\x0C');
        proof {
            assert(name@ =~= seq!['s', 'p', 'a', 'c', 'e']);
            assert forall|d: char| s.contains(d) <==> posix_member(name@, d) by {
                vstd::utf8::char_u32_cast(d, d as u32);
            }
        }
        return Some(s);
    }
    if chars_eq(name, &['u', 'p', 'p', 'e', 'r']) {
        let s = CharSet::range('A', 'Z');
        proof {
            assert(name@ =~= seq!['u', 'p', 'p', 'e', 'r']);
            assert forall|d: char| s.contains(d) <==> posix_member(name@, d) by {
                vstd::utf8::char_u32_cast(d, d as u32);
            }
        }
        return Some(s);
    }
    if chars_eq(name, &['l', 'o', 'w', 'e', 'r']) {
        let s = CharSet::range('a', 'z');
        proof {
            assert(name@ =~= seq!['l', 'o', 'w', 'e', 'r']);
            assert forall|d: char| s.contains(d) <==> posix_member(name@, d) by {
                vstd::utf8::char_u32_cast(d, d as u32);
            }
        }
        return Some(s);
    }
    if chars_eq(name, &['w', 'o', 'r', 'd']) {
        let mut s = CharSet::range('a', 'z');
        s = s.union(&CharSet::range('A', 'Z'));
        s = s.union(&CharSet::range('0', '9'));
        s.insert('_');
        proof {
            assert(name@ =~= seq!['w', 'o', 'r', 'd']);
            assert forall|d: char| s.contains(d) <==> posix_member(name@, d) by {
                vstd::utf8::char_u32_cast(d, d as u32);
            }
        }
        return Some(s);
    }
    if chars_eq(name, &['x', 'd', 'i', 'g', 'i', 't']) {
        let mut s = CharSet::range('0', '9');
        s = s.union(&CharSet::range('a', 'f'));
        s = s.union(&CharSet::range('A', 'F'));
        proof {
            assert(name@ =~= seq!['x', 'd', 'i', 'g', 'i', 't']);
            assert forall|d: char| s.contains(d) <==> posix_member(name@, d) by {
                vstd::utf8::char_u32_cast(d, d as u32);
            }
        }
        return Some(s);
    }
    if chars_eq(name, &['p', 'u', 'n', 'c', 't']) {
        let mut s = CharSet::empty();
        s.insert_range('!', '/');
        s.insert_range(':', '@');
        s.insert_range('[', '`');
        s.insert_range('{', '~');
        proof {
            assert(name@ =~= seq!['p', 'u', 'n', 'c', 't']);
            assert forall|d: char| s.contains(d) <==> posix_member(name@, d) by {
                vstd::utf8::char_u32_cast(d, d as u32);
            }
        }
        return Some(s);
    }
    if chars_eq(name, &['b', 'l', 'a', 'n', 'k']) {
        let mut s = CharSet::singleton(' ');
        s.insert('\t');
        proof {
            assert(name@ =~= seq!['b', 'l', 'a', 'n', 'k']);
            assert forall|d: char| s.contains(d) <==> posix_member(name@, d) by {
                vstd::utf8::char_u32_cast(d, d as u32);
            }
        }
        return Some(s);
    }
    if chars_eq(name, &['c', 'n', 't', 'r', 'l']) {
        let mut s = CharSet::range('\x00', '\x1F');
        s.insert('\x7F');
        proof {
            assert(name@ =~= seq!['c', 'n', 't', 'r', 'l']);
            assert forall|d: char| s.contains(d) <==> posix_member(name@, d) by {
                vstd::utf8::char_u32_cast(d, d as u32);
            }
        }
        return Some(s);
    }
    if chars_eq(name, &['g', 'r', 'a', 'p', 'h']) {
        let s = CharSet::range('!', '~');
        proof {
            assert(name@ =~= seq!['g', 'r', 'a', 'p', 'h']);
            assert forall|d: char| s.contains(d) <==> posix_member(name@, d) by {
                vstd::utf8::char_u32_cast(d, d as u32);
            }
        }
        return Some(s);
    }
    if chars_eq(name, &['p', 'r', 'i', 'n', 't']) {
        let s = CharSet::range(' ', '~');
        proof {
            assert(name@ =~= seq!['p', 'r', 'i', 'n', 't']);
            assert forall|d: char| s.contains(d) <==> posix_member(name@, d) by {
                vstd::utf8::char_u32_cast(d, d as u32);
            }
        }
        return Some(s);
    }
    if chars_eq(name, &['a', 's', 'c', 'i', 'i']) {
        let s = CharSet::range('\x00', '\x7F');
        proof {
            assert(name@ =~= seq!['a', 's', 'c', 'i', 'i']);
            assert forall|d: char| s.contains(d) <==> posix_member(name@, d) by {
                vstd::utf8::char_u32_cast(d, d as u32);
            }
        }
        return Some(s);
    }
    proof {
        assert(!posix_known(name@));
    }
    None
}

} // verus!

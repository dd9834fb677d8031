//! What a pattern means: the words each construct of the pattern syntax
//! stands for, read along the scan of `grammar`. Anchors, lookarounds and word
//! boundaries depend on the position in the input rather than on a word; a
//! construct that holds one has no meaning here (`None`).
use vstd::prelude::*;
use crate::grammar::{
    at, atom_scan, class_item_scan, concat_scan, digits_end, flags_scan, intersection_scan, is_digit, posix_name_start,
    posix_scan, quantified_scan,
};
use crate::semantics::{
    accepts, all_accept, any_accepts, concat_all_accepts, decr, lemma_extend_accepts, lemma_extend_plain, loop_accepts, plain,
    table_extends, NodeTable,
};
use crate::types::RegexNodeId;

verus! {

/// A set of words.
pub type Lang = spec_fn(Seq<char>) -> bool;

/// Every character of `w` is ASCII.
pub open spec fn ascii_word(w: Seq<char>) -> bool {
    forall|k: int| 0 <= k < w.len() ==> (#[trigger] w[k] as u32) < 128
}

/// The words of one character that satisfies `p`.
pub open spec fn char_lang(p: spec_fn(char) -> bool) -> Lang {
    |w: Seq<char>| w.len() == 1 && p(w[0])
}

/// The empty word alone.
pub open spec fn eps_lang() -> Lang {
    |w: Seq<char>| w.len() == 0
}

/// No word.
pub open spec fn none_lang() -> Lang {
    |w: Seq<char>| false
}

/// Every word.
pub open spec fn all_lang() -> Lang {
    |w: Seq<char>| true
}

/// A word of `a` followed by a word of `b`.
pub open spec fn cat_lang(a: Lang, b: Lang) -> Lang {
    |w: Seq<char>|
        exists|i: int| 0 <= i <= w.len() && a(#[trigger] w.subrange(0, i)) && b(w.subrange(i, w.len() as int))
}

/// A word of `a` or of `b`.
pub open spec fn or_lang(a: Lang, b: Lang) -> Lang {
    |w: Seq<char>| a(w) || b(w)
}

/// A word of both `a` and `b`.
pub open spec fn and_lang(a: Lang, b: Lang) -> Lang {
    |w: Seq<char>| a(w) && b(w)
}

/// A word not in `a`.
pub open spec fn not_lang(a: Lang) -> Lang {
    |w: Seq<char>| !a(w)
}

/// `w` is made of `low` to `high` pieces of `a`: the empty word when no
/// piece is required or `a` holds it, otherwise a non-empty first piece and
/// the rest. `u32::MAX` as `high` is no bound; a repetition whose high
/// count is used up keeps going while pieces are still required.
pub open spec fn rep_accepts(a: Lang, low: u32, high: u32, w: Seq<char>) -> bool
    decreases w.len(),
{
    if w.len() == 0 {
        low == 0 || a(w)
    } else {
        (low > 0 || high > 0) && exists|i: int|
            1 <= i <= w.len() && a(#[trigger] w.subrange(0, i)) && rep_accepts(
                a,
                decr(low),
                decr(high),
                w.subrange(i, w.len() as int),
            )
    }
}

/// `low` to `high` pieces of `a`.
pub open spec fn rep_lang(a: Lang, low: u32, high: u32) -> Lang {
    |w: Seq<char>| rep_accepts(a, low, high, w)
}

/// The escapes that stand for a position rather than a character.
pub open spec fn escape_is_anchor(e: char) -> bool {
    e == 'A' || e == 'z' || e == 'b' || e == 'B'
}

/// Whether `d` is in the class that the escape `\e` stands for outside a
/// bracketed class.
pub open spec fn escape_member(e: char, d: char) -> bool {
    if e == 'n' {
        d == '\n'
    } else if e == 'r' {
        d == '\r'
    } else if e == 't' {
        d == '\t'
    } else if e == 'd' {
        is_digit(d)
    } else if e == 'w' {
        crate::parser::is_word_char(d)
    } else if e == 's' {
        crate::parser::is_space_char(d)
    } else if e == 'D' {
        !is_digit(d)
    } else if e == 'W' {
        !crate::parser::is_word_char(d)
    } else if e == 'S' {
        !crate::parser::is_space_char(d)
    } else {
        d == e
    }
}

/// Whether `d` is in what the escape `\e` stands for inside a bracketed
/// class, where only `\n`, `\r`, `\t`, `\d`, `\w` and `\s` are classes.
pub open spec fn class_escape_member(e: char, d: char) -> bool {
    if e == 'n' {
        d == '\n'
    } else if e == 'r' {
        d == '\r'
    } else if e == 't' {
        d == '\t'
    } else if e == 'd' {
        is_digit(d)
    } else if e == 'w' {
        crate::parser::is_word_char(d)
    } else if e == 's' {
        crate::parser::is_space_char(d)
    } else {
        d == e
    }
}

/// Whether `d` is in one of the items of a bracketed class from `i` on.
pub open spec fn class_items_member(s: Seq<char>, i: int, d: char) -> bool
    decreases s.len() - i,
{
    if 0 <= i < s.len() && s[i] != ']' {
        if s[i] == '[' && at(s, i + 1) == Some(':') {
            match posix_scan(s, i) {
                Ok(j) => {
                    let start = posix_name_start(s, i);
                    let name = s.subrange(start, j - 2);
                    let here = crate::parser::posix_member(name, d) != (at(s, i + 2) == Some('^'));
                    if i < j <= s.len() {
                        here || class_items_member(s, j, d)
                    } else {
                        here
                    }
                },
                Err(_) => false,
            }
        } else {
            match class_item_scan(s, i) {
                Ok(j) => {
                    let here = if j == i + 3 {
                        (s[i] as u32) <= (d as u32) <= (s[i + 2] as u32)
                    } else if j == i + 2 {
                        class_escape_member(s[i + 1], d)
                    } else {
                        d == s[i]
                    };
                    if i < j <= s.len() {
                        here || class_items_member(s, j, d)
                    } else {
                        here
                    }
                },
                Err(_) => false,
            }
        }
    } else {
        false
    }
}

/// Whether `d` is in the bracketed class that starts at `i`.
pub open spec fn class_member(s: Seq<char>, i: int, d: char) -> bool {
    let negated = at(s, i + 1) == Some('^');
    let k = if negated {
        i + 2
    } else {
        i + 1
    };
    class_items_member(s, k, d) != negated
}

/// The value of a run of digits, saturated at `u32::MAX`.
pub open spec fn count_value(ds: Seq<char>) -> u32 {
    if crate::parser::decimal_value(ds) < u32::MAX {
        crate::parser::decimal_value(ds) as u32
    } else {
        u32::MAX
    }
}

/// The low and high counts of the repetition `{...}` that starts at `i`.
pub open spec fn repeat_counts(s: Seq<char>, i: int) -> (u32, u32) {
    let k = digits_end(s, i + 1);
    let low = count_value(s.subrange(i + 1, k));
    let high = if at(s, k) == Some(',') {
        if at(s, k + 1) == Some('}') {
            u32::MAX
        } else {
            count_value(s.subrange(k + 1, digits_end(s, k + 1)))
        }
    } else {
        low
    };
    (low, high)
}

/// The meaning of the inside of a group from `i`.
pub open spec fn group_lang(s: Seq<char>, i: int) -> Option<Lang>
    decreases s.len() - i, 8int,
{
    alternation_lang(s, i)
}

/// The meaning of an alternation from `i`: any of its intersections.
pub open spec fn alternation_lang(s: Seq<char>, i: int) -> Option<Lang>
    decreases s.len() - i, 7int,
{
    match intersection_lang(s, i) {
        None => None,
        Some(a) => match intersection_scan(s, i) {
            Ok(j) => if i <= j <= s.len() {
                match alternation_rest_lang(s, j) {
                    Some(b) => Some(or_lang(a, b)),
                    None => None,
                }
            } else {
                None
            },
            Err(_) => None,
        },
    }
}

/// The meaning of the rest of an alternation at `i`.
pub open spec fn alternation_rest_lang(s: Seq<char>, i: int) -> Option<Lang>
    decreases s.len() - i, 6int,
{
    if 0 <= i < s.len() && s[i] == '|' {
        match intersection_lang(s, i + 1) {
            None => None,
            Some(a) => match intersection_scan(s, i + 1) {
                Ok(j) => if i + 1 <= j <= s.len() {
                    match alternation_rest_lang(s, j) {
                        Some(b) => Some(or_lang(a, b)),
                        None => None,
                    }
                } else {
                    None
                },
                Err(_) => None,
            },
        }
    } else {
        Some(none_lang())
    }
}

/// The meaning of an intersection from `i`: all of its concatenations.
pub open spec fn intersection_lang(s: Seq<char>, i: int) -> Option<Lang>
    decreases s.len() - i, 5int,
{
    match concat_lang(s, i) {
        None => None,
        Some(a) => match concat_scan(s, i) {
            Ok(j) => if i <= j <= s.len() {
                match intersection_rest_lang(s, j) {
                    Some(b) => Some(and_lang(a, b)),
                    None => None,
                }
            } else {
                None
            },
            Err(_) => None,
        },
    }
}

/// The meaning of the rest of an intersection at `i`.
pub open spec fn intersection_rest_lang(s: Seq<char>, i: int) -> Option<Lang>
    decreases s.len() - i, 4int,
{
    if 0 <= i < s.len() && s[i] == '&' {
        match concat_lang(s, i + 1) {
            None => None,
            Some(a) => match concat_scan(s, i + 1) {
                Ok(j) => if i + 1 <= j <= s.len() {
                    match intersection_rest_lang(s, j) {
                        Some(b) => Some(and_lang(a, b)),
                        None => None,
                    }
                } else {
                    None
                },
                Err(_) => None,
            },
        }
    } else {
        Some(all_lang())
    }
}

/// The meaning of a concatenation from `i`: its quantified atoms in turn.
pub open spec fn concat_lang(s: Seq<char>, i: int) -> Option<Lang>
    decreases s.len() - i, 3int,
{
    if 0 <= i < s.len() && s[i] != '|' && s[i] != '&' && s[i] != ')' {
        match quantified_lang(s, i) {
            None => None,
            Some(a) => match quantified_scan(s, i) {
                Ok(j) => if i < j <= s.len() {
                    match concat_lang(s, j) {
                        Some(b) => Some(cat_lang(a, b)),
                        None => None,
                    }
                } else {
                    None
                },
                Err(_) => None,
            },
        }
    } else {
        Some(eps_lang())
    }
}

/// The meaning of an atom from `i` with its quantifier.
pub open spec fn quantified_lang(s: Seq<char>, i: int) -> Option<Lang>
    decreases s.len() - i, 2int,
{
    match atom_lang(s, i) {
        None => None,
        Some(a) => match atom_scan(s, i) {
            Ok(j) => if at(s, j) == Some('*') {
                Some(rep_lang(a, 0, u32::MAX))
            } else if at(s, j) == Some('+') {
                Some(rep_lang(a, 1, u32::MAX))
            } else if at(s, j) == Some('?') {
                Some(rep_lang(a, 0, 1))
            } else if at(s, j) == Some('{') {
                Some(rep_lang(a, repeat_counts(s, j).0, repeat_counts(s, j).1))
            } else {
                Some(a)
            },
            Err(_) => None,
        },
    }
}

/// The meaning of a group opened at `i` by `(?` and flags.
pub open spec fn flag_group_lang(s: Seq<char>, i: int) -> Option<Lang>
    decreases s.len() - i, 0int,
{
    match flags_scan(s, i + 2) {
        Ok(j) => if at(s, j) == Some(')') {
            Some(eps_lang())
        } else if i < j <= s.len() {
            group_lang(s, j)
        } else {
            None
        },
        Err(_) => None,
    }
}

/// The meaning of an atom from `i`.
pub open spec fn atom_lang(s: Seq<char>, i: int) -> Option<Lang>
    decreases s.len() - i, 1int,
{
    if !(0 <= i < s.len()) {
        None
    } else if s[i] == '(' {
        if at(s, i + 1) == Some('?') {
            let kind = at(s, i + 2);
            if kind == Some(':') {
                group_lang(s, i + 3)
            } else if kind == Some('=') || kind == Some('!') || kind == Some('<') {
                None
            } else {
                flag_group_lang(s, i)
            }
        } else {
            group_lang(s, i + 1)
        }
    } else if s[i] == '~' {
        if at(s, i + 1) == Some('(') {
            match group_lang(s, i + 2) {
                Some(a) => Some(not_lang(a)),
                None => None,
            }
        } else {
            None
        }
    } else if s[i] == '.' {
        Some(char_lang(|d: char| d != '\n'))
    } else if s[i] == '_' {
        Some(char_lang(|d: char| true))
    } else if s[i] == '^' || s[i] == '$' {
        None
    } else if s[i] == '[' {
        Some(char_lang(|d: char| class_member(s, i, d)))
    } else if s[i] == '\\' {
        if i + 1 < s.len() && !escape_is_anchor(s[i + 1]) {
            Some(char_lang(|d: char| escape_member(s[i + 1], d)))
        } else {
            None
        }
    } else {
        Some(char_lang(|d: char| d == s[i]))
    }
}

/// No `~` (complement) from `a` up to, not including, `b`.
pub open spec fn no_complement(s: Seq<char>, a: int, b: int) -> bool {
    forall|k: int| a <= k < b ==> #[trigger] s[k] != '~'
}

/// The meaning of a whole pattern.
pub open spec fn pattern_lang(s: Seq<char>) -> Option<Lang> {
    alternation_lang(s, 0)
}

/// Node `id` of `t` means `l`: where `l` is a meaning, the node is plain
/// and accepts exactly the ASCII words of `l`.
pub open spec fn node_means(t: NodeTable, id: int, l: Option<Lang>) -> bool {
    l matches Some(f) ==> plain(t, id) && forall|w: Seq<char>| ascii_word(w) ==> #[trigger] accepts(t, id, w) == f(w)
}

/// What a node means survives the growth of the table.
pub proof fn lemma_means_extend(t1: NodeTable, t2: NodeTable, id: int, l: Option<Lang>)
    requires
        table_extends(t1, t2),
        0 <= id < t1.len(),
        node_means(t1, id, l),
    ensures
        node_means(t2, id, l),
{
    if let Some(f) = l {
        lemma_extend_plain(t1, t2, id);
        assert forall|w: Seq<char>| ascii_word(w) implies #[trigger] accepts(t2, id, w) == f(w) by {
            lemma_extend_accepts(t1, t2, id, w);
        }
    }
}

/// A piece of an ASCII word is an ASCII word.
pub proof fn lemma_ascii_subrange(w: Seq<char>, i: int, j: int)
    requires
        ascii_word(w),
        0 <= i <= j <= w.len(),
    ensures
        ascii_word(w.subrange(i, j)),
{
    assert forall|k: int| 0 <= k < w.subrange(i, j).len() implies (#[trigger] w.subrange(i, j)[k] as u32) < 128 by {
        assert(w.subrange(i, j)[k] == w[i + k]);
    }
}

/// A loop of a node that means `a` means the repetition of `a`.
pub proof fn lemma_loop_means(t: NodeTable, node: int, a: Lang, low: u32, high: u32, w: Seq<char>)
    requires
        0 <= node,
        ascii_word(w),
        forall|u: Seq<char>| ascii_word(u) ==> #[trigger] accepts(t, node, u) == a(u),
    ensures
        loop_accepts(t, node, low, high, w) == rep_accepts(a, low, high, w),
    decreases w.len(),
{
    if w.len() == 0 {
        assert(accepts(t, node, w) == a(w));
    } else {
        assert forall|i: int| 1 <= i <= w.len() implies (accepts(t, node, #[trigger] w.subrange(0, i)) && loop_accepts(
            t,
            node,
            decr(low),
            decr(high),
            w.subrange(i, w.len() as int),
        )) == (a(w.subrange(0, i)) && rep_accepts(a, decr(low), decr(high), w.subrange(i, w.len() as int))) by {
            lemma_ascii_subrange(w, 0, i);
            lemma_ascii_subrange(w, i, w.len() as int);
            lemma_loop_means(t, node, a, decr(low), decr(high), w.subrange(i, w.len() as int));
        }
        if loop_accepts(t, node, low, high, w) {
            let i = choose|i: int|
                1 <= i <= w.len() && accepts(t, node, #[trigger] w.subrange(0, i)) && loop_accepts(
                    t,
                    node,
                    decr(low),
                    decr(high),
                    w.subrange(i, w.len() as int),
                );
            assert(a(w.subrange(0, i)));
        }
        if rep_accepts(a, low, high, w) {
            let i = choose|i: int|
                1 <= i <= w.len() && a(#[trigger] w.subrange(0, i)) && rep_accepts(
                    a,
                    decr(low),
                    decr(high),
                    w.subrange(i, w.len() as int),
                );
            assert(accepts(t, node, w.subrange(0, i)));
        }
    }
}

/// `w` is a word of each node of `ids` in turn, followed by a word of
/// `rest`.
pub open spec fn concat_with(t: NodeTable, ids: Seq<RegexNodeId>, rest: Lang, w: Seq<char>) -> bool
    decreases ids.len(),
{
    if ids.len() == 0 {
        rest(w)
    } else {
        exists|i: int|
            0 <= i <= w.len() && accepts(t, ids[0] as int, #[trigger] w.subrange(0, i)) && concat_with(
                t,
                ids.subrange(1, ids.len() as int),
                rest,
                w.subrange(i, w.len() as int),
            )
    }
}

/// Moving the first word of the rest onto the list of nodes, where node `n`
/// means `a`.
pub proof fn lemma_concat_with_push(
    t: NodeTable,
    ids: Seq<RegexNodeId>,
    n: RegexNodeId,
    a: Lang,
    b: Lang,
    w: Seq<char>,
)
    requires
        ascii_word(w),
        forall|u: Seq<char>| ascii_word(u) ==> #[trigger] accepts(t, n as int, u) == a(u),
    ensures
        concat_with(t, ids.push(n), b, w) == concat_with(t, ids, cat_lang(a, b), w),
    decreases ids.len(),
{
    let ids2 = ids.push(n);
    if ids.len() == 0 {
        let e = ids2.subrange(1, ids2.len() as int);
        assert(e =~= Seq::<RegexNodeId>::empty());
        assert(ids2[0] == n);
        assert forall|i: int| 0 <= i <= w.len() implies (accepts(t, n as int, #[trigger] w.subrange(0, i))
            == a(w.subrange(0, i))) && concat_with(t, e, b, w.subrange(i, w.len() as int)) == b(
            w.subrange(i, w.len() as int),
        ) by {
            lemma_ascii_subrange(w, 0, i);
        }
        if concat_with(t, ids2, b, w) {
            let i = choose|i: int|
                0 <= i <= w.len() && accepts(t, ids2[0] as int, #[trigger] w.subrange(0, i)) && concat_with(
                    t,
                    e,
                    b,
                    w.subrange(i, w.len() as int),
                );
            assert(a(w.subrange(0, i)) && b(w.subrange(i, w.len() as int)));
        }
        if cat_lang(a, b)(w) {
            let i = choose|i: int| 0 <= i <= w.len() && a(#[trigger] w.subrange(0, i)) && b(w.subrange(i, w.len() as int));
            assert(accepts(t, ids2[0] as int, w.subrange(0, i)) && concat_with(t, e, b, w.subrange(i, w.len() as int)));
        }
    } else {
        let tail = ids.subrange(1, ids.len() as int);
        assert(ids2.subrange(1, ids2.len() as int) =~= tail.push(n));
        assert(ids2[0] == ids[0]);
        assert forall|i: int| 0 <= i <= w.len() implies concat_with(
            t,
            ids2.subrange(1, ids2.len() as int),
            b,
            #[trigger] w.subrange(i, w.len() as int),
        ) == concat_with(t, tail, cat_lang(a, b), w.subrange(i, w.len() as int)) by {
            lemma_ascii_subrange(w, i, w.len() as int);
            lemma_concat_with_push(t, tail, n, a, b, w.subrange(i, w.len() as int));
        }
        assert(concat_with(t, ids2, b, w) == concat_with(t, ids, cat_lang(a, b), w)) by {
            if concat_with(t, ids2, b, w) {
                let i = choose|i: int|
                    0 <= i <= w.len() && accepts(t, ids2[0] as int, #[trigger] w.subrange(0, i)) && concat_with(
                        t,
                        ids2.subrange(1, ids2.len() as int),
                        b,
                        w.subrange(i, w.len() as int),
                    );
                assert(concat_with(t, tail, cat_lang(a, b), w.subrange(i, w.len() as int)));
            }
            if concat_with(t, ids, cat_lang(a, b), w) {
                let i = choose|i: int|
                    0 <= i <= w.len() && accepts(t, ids[0] as int, #[trigger] w.subrange(0, i)) && concat_with(
                        t,
                        tail,
                        cat_lang(a, b),
                        w.subrange(i, w.len() as int),
                    );
                assert(concat_with(t, ids2.subrange(1, ids2.len() as int), b, w.subrange(i, w.len() as int)));
            }
        }
    }
}

/// With the empty word as the rest, the words of the nodes in turn.
pub proof fn lemma_concat_with_end(t: NodeTable, ids: Seq<RegexNodeId>, w: Seq<char>)
    ensures
        concat_with(t, ids, eps_lang(), w) == concat_all_accepts(t, ids, w),
    decreases ids.len(),
{
    if ids.len() > 0 {
        let tail = ids.subrange(1, ids.len() as int);
        assert forall|i: int| 0 <= i <= w.len() implies concat_with(
            t,
            tail,
            eps_lang(),
            #[trigger] w.subrange(i, w.len() as int),
        ) == concat_all_accepts(t, tail, w.subrange(i, w.len() as int)) by {
            lemma_concat_with_end(t, tail, w.subrange(i, w.len() as int));
        }
    }
}

/// The words of nodes in turn survive the growth of the table.
pub proof fn lemma_concat_with_extend(
    t1: NodeTable,
    t2: NodeTable,
    ids: Seq<RegexNodeId>,
    rest: Lang,
    w: Seq<char>,
)
    requires
        table_extends(t1, t2),
        forall|k: int| 0 <= k < ids.len() ==> (#[trigger] ids[k]) < t1.len(),
    ensures
        concat_with(t2, ids, rest, w) == concat_with(t1, ids, rest, w),
    decreases ids.len(),
{
    if ids.len() > 0 {
        let tail = ids.subrange(1, ids.len() as int);
        assert forall|i: int| 0 <= i <= w.len() implies (accepts(t2, ids[0] as int, #[trigger] w.subrange(0, i))
            && concat_with(t2, tail, rest, w.subrange(i, w.len() as int))) == (accepts(
            t1,
            ids[0] as int,
            w.subrange(0, i),
        ) && concat_with(t1, tail, rest, w.subrange(i, w.len() as int))) by {
            assert(ids[0] < t1.len());
            lemma_extend_accepts(t1, t2, ids[0] as int, w.subrange(0, i));
            assert forall|k: int| 0 <= k < tail.len() implies (#[trigger] tail[k]) < t1.len() by {
                assert(tail[k] == ids[k + 1]);
            }
            lemma_concat_with_extend(t1, t2, tail, rest, w.subrange(i, w.len() as int));
        }
    }
}

} // verus!

//! The pattern syntax as a scan over the pattern's characters: where each
//! construct starting at a position ends, or where the first error lies and
//! what it says. The parser follows this scan step for step.
use vstd::prelude::*;

verus! {

/// The outcome of scanning a construct: the position after it, or the
/// position and message of the first error.
pub type Scan = Result<int, (int, Seq<char>)>;

/// The message for a character other than the one expected.
pub open spec fn expected_found_text(expected: char, found: char) -> Seq<char> {
    "Expected '"@ + seq![expected] + "', found '"@ + seq![found] + "'"@
}

/// The message for an input that ends where a character was expected.
pub open spec fn expected_end_text(expected: char) -> Seq<char> {
    "Expected '"@ + seq![expected] + "', found end of input"@
}

/// The message for an unknown flag character.
pub open spec fn unknown_flag_text(c: char) -> Seq<char> {
    "Unknown flag character '"@ + seq![c] + "'"@
}

/// The message for a metacharacter where an atom was expected.
pub open spec fn unexpected_metachar_text(c: char) -> Seq<char> {
    "Unexpected metacharacter '"@ + seq![c] + "'"@
}

/// The message for an unknown POSIX class name.
pub open spec fn unknown_posix_text(name: Seq<char>) -> Seq<char> {
    "Unknown POSIX class '"@ + name + "'"@
}

/// Whether `c` is a metacharacter that cannot start an atom.
pub open spec fn spec_is_metachar(c: char) -> bool {
    c == '*' || c == '+' || c == '?' || c == '{' || c == '}' || c == '|' || c == '&' || c == '(' || c == ')'
        || c == '[' || c == ']'
}

/// An ASCII decimal digit.
pub open spec fn is_digit(c: char) -> bool {
    '0' <= c <= '9'
}

/// An ASCII letter.
pub open spec fn is_ascii_letter(c: char) -> bool {
    ('a' <= c <= 'z') || ('A' <= c <= 'Z')
}

/// A flag character of a group such as `(?i-u)`.
pub open spec fn is_flag_char(c: char) -> bool {
    c == 'i' || c == 'm' || c == 's' || c == 'u' || c == 'U' || c == 'x' || c == '-'
}

/// The character at `i`, if there is one.
pub open spec fn at(s: Seq<char>, i: int) -> Option<char> {
    if 0 <= i < s.len() {
        Some(s[i])
    } else {
        None
    }
}

/// Reading `expected` at `i`: the read moves past a character where there
/// is one, and the error lies after it.
pub open spec fn expect_scan(s: Seq<char>, i: int, expected: char) -> Scan {
    if 0 <= i < s.len() {
        if s[i] == expected {
            Ok(i + 1)
        } else {
            Err((i + 1, expected_found_text(expected, s[i])))
        }
    } else {
        Err((i, expected_end_text(expected)))
    }
}

/// The end of the run of digits that starts at `i`.
pub open spec fn digits_end(s: Seq<char>, i: int) -> int
    decreases s.len() - i,
{
    if 0 <= i < s.len() && is_digit(s[i]) {
        digits_end(s, i + 1)
    } else {
        i
    }
}

/// A number: one digit or more.
pub open spec fn number_scan(s: Seq<char>, i: int) -> Scan {
    if digits_end(s, i) == i {
        Err((i, "Expected a number"@))
    } else {
        Ok(digits_end(s, i))
    }
}

/// Flags up to and including a `:`, or up to a `)` or the end.
pub open spec fn flags_scan(s: Seq<char>, i: int) -> Scan
    decreases s.len() - i,
{
    if 0 <= i < s.len() {
        if is_flag_char(s[i]) {
            flags_scan(s, i + 1)
        } else if s[i] == ':' {
            Ok(i + 1)
        } else if s[i] == ')' {
            Ok(i)
        } else {
            Err((i, unknown_flag_text(s[i])))
        }
    } else {
        Ok(i)
    }
}

/// A repetition `{n}`, `{n,}` or `{n,m}` starting at `i`.
pub open spec fn repeat_scan(s: Seq<char>, i: int) -> Scan {
    match expect_scan(s, i, '{') {
        Err(e) => Err(e),
        Ok(j) => match number_scan(s, j) {
            Err(e) => Err(e),
            Ok(k) => {
                let high = if at(s, k) == Some(',') {
                    if at(s, k + 1) == Some('}') {
                        Ok(k + 1)
                    } else {
                        number_scan(s, k + 1)
                    }
                } else {
                    Ok(k)
                };
                match high {
                    Err(e) => Err(e),
                    Ok(m) => expect_scan(s, m, '}'),
                }
            },
        },
    }
}

/// The letters of a POSIX class name, up to a `:` or the end.
pub open spec fn posix_name_scan(s: Seq<char>, i: int) -> Scan
    decreases s.len() - i,
{
    if 0 <= i < s.len() {
        if s[i] == ':' {
            Ok(i)
        } else if !is_ascii_letter(s[i]) {
            Err((i, "Invalid POSIX class name"@))
        } else {
            posix_name_scan(s, i + 1)
        }
    } else {
        Ok(i)
    }
}

/// Where the name of the POSIX class that starts at `i` (on `[:`) begins:
/// after the `[:` and an optional `^`.
pub open spec fn posix_name_start(s: Seq<char>, i: int) -> int {
    if at(s, i + 2) == Some('^') {
        i + 3
    } else {
        i + 2
    }
}

/// A POSIX class `[:name:]` or `[:^name:]` starting at `i`, on `[:`.
pub open spec fn posix_scan(s: Seq<char>, i: int) -> Scan {
    let j = posix_name_start(s, i);
    match posix_name_scan(s, j) {
        Err(e) => Err(e),
        Ok(k) => match expect_scan(s, k, ':') {
            Err(e) => Err(e),
            Ok(k1) => match expect_scan(s, k1, ']') {
                Err(e) => Err(e),
                Ok(k2) => if crate::parser::posix_known(s.subrange(j, k)) {
                    Ok(k2)
                } else {
                    Err((k2, unknown_posix_text(s.subrange(j, k))))
                },
            },
        },
    }
}

/// One item of a bracketed class starting at `i`, which holds neither `]`
/// nor the start of a POSIX class: a character, a range `a-z` or an escape.
pub open spec fn class_item_scan(s: Seq<char>, i: int) -> Scan {
    if at(s, i + 1) == Some('-') && at(s, i + 2) != Some(']') {
        if i + 2 < s.len() {
            Ok(i + 3)
        } else {
            Err((i + 2, "Expected end of range"@))
        }
    } else if s[i] == '\\' {
        if i + 1 < s.len() {
            Ok(i + 2)
        } else {
            Err((i + 1, "Unexpected end after escape"@))
        }
    } else {
        Ok(i + 1)
    }
}

/// The items of a bracketed class from `i` up to its `]` or the end.
pub open spec fn class_items_scan(s: Seq<char>, i: int) -> Scan
    decreases s.len() - i,
{
    if 0 <= i < s.len() && s[i] != ']' {
        let item = if s[i] == '[' && at(s, i + 1) == Some(':') {
            posix_scan(s, i)
        } else {
            class_item_scan(s, i)
        };
        match item {
            Err(e) => Err(e),
            Ok(j) => if i < j <= s.len() {
                class_items_scan(s, j)
            } else {
                Ok(j)
            },
        }
    } else {
        Ok(i)
    }
}

/// A bracketed class `[...]` or `[^...]` starting at `i`.
pub open spec fn class_scan(s: Seq<char>, i: int) -> Scan {
    match expect_scan(s, i, '[') {
        Err(e) => Err(e),
        Ok(j) => {
            let k = if at(s, j) == Some('^') {
                j + 1
            } else {
                j
            };
            match class_items_scan(s, k) {
                Err(e) => Err(e),
                Ok(m) => expect_scan(s, m, ']'),
            }
        },
    }
}

/// An escape `\c` starting at `i`.
pub open spec fn escape_scan(s: Seq<char>, i: int) -> Scan {
    match expect_scan(s, i, '\\') {
        Err(e) => Err(e),
        Ok(j) => if j < s.len() {
            Ok(j + 1)
        } else {
            Err((j, "Unexpected end after escape"@))
        },
    }
}

/// The inside of a group from `i`, then its closing `)`.
pub open spec fn group_scan(s: Seq<char>, i: int) -> Scan
    decreases s.len() - i, 8int,
{
    match alternation_scan(s, i) {
        Err(e) => Err(e),
        Ok(j) => if i <= j <= s.len() {
            expect_scan(s, j, ')')
        } else {
            Ok(j)
        },
    }
}

/// An alternation from `i`: intersections separated by `|`.
pub open spec fn alternation_scan(s: Seq<char>, i: int) -> Scan
    decreases s.len() - i, 7int,
{
    match intersection_scan(s, i) {
        Err(e) => Err(e),
        Ok(j) => if i <= j <= s.len() {
            alternation_rest_scan(s, j)
        } else {
            Ok(j)
        },
    }
}

/// The rest of an alternation at `i`: more `|` and intersections.
pub open spec fn alternation_rest_scan(s: Seq<char>, i: int) -> Scan
    decreases s.len() - i, 6int,
{
    if 0 <= i < s.len() && s[i] == '|' {
        match intersection_scan(s, i + 1) {
            Err(e) => Err(e),
            Ok(j) => if i + 1 <= j <= s.len() {
                alternation_rest_scan(s, j)
            } else {
                Ok(j)
            },
        }
    } else {
        Ok(i)
    }
}

/// An intersection from `i`: concatenations separated by `&`.
pub open spec fn intersection_scan(s: Seq<char>, i: int) -> Scan
    decreases s.len() - i, 5int,
{
    match concat_scan(s, i) {
        Err(e) => Err(e),
        Ok(j) => if i <= j <= s.len() {
            intersection_rest_scan(s, j)
        } else {
            Ok(j)
        },
    }
}

/// The rest of an intersection at `i`: more `&` and concatenations.
pub open spec fn intersection_rest_scan(s: Seq<char>, i: int) -> Scan
    decreases s.len() - i, 4int,
{
    if 0 <= i < s.len() && s[i] == '&' {
        match concat_scan(s, i + 1) {
            Err(e) => Err(e),
            Ok(j) => if i + 1 <= j <= s.len() {
                intersection_rest_scan(s, j)
            } else {
                Ok(j)
            },
        }
    } else {
        Ok(i)
    }
}

/// A concatenation from `i`: quantified atoms up to `|`, `&`, `)` or the
/// end.
pub open spec fn concat_scan(s: Seq<char>, i: int) -> Scan
    decreases s.len() - i, 3int,
{
    if 0 <= i < s.len() && s[i] != '|' && s[i] != '&' && s[i] != ')' {
        match quantified_scan(s, i) {
            Err(e) => Err(e),
            Ok(j) => if i < j <= s.len() {
                concat_scan(s, j)
            } else {
                Ok(j)
            },
        }
    } else {
        Ok(i)
    }
}

/// An atom from `i` with an optional quantifier, itself optionally
/// followed by `?`.
pub open spec fn quantified_scan(s: Seq<char>, i: int) -> Scan
    decreases s.len() - i, 2int,
{
    match atom_scan(s, i) {
        Err(e) => Err(e),
        Ok(j) => {
            let q = if at(s, j) == Some('*') || at(s, j) == Some('+') || at(s, j) == Some('?') {
                Some(Ok(j + 1))
            } else if at(s, j) == Some('{') {
                Some(repeat_scan(s, j))
            } else {
                None
            };
            match q {
                None => Ok(j),
                Some(Err(e)) => Err(e),
                Some(Ok(k)) => if at(s, k) == Some('?') {
                    Ok(k + 1)
                } else {
                    Ok(k)
                },
            }
        },
    }
}

/// A group opened at `i` by `(?` followed by something other than `:`,
/// `=`, `!` or `<`: flags, then either `)` or the group's inside.
pub open spec fn flag_group_scan(s: Seq<char>, i: int) -> Scan
    decreases s.len() - i, 0int,
{
    match flags_scan(s, i + 2) {
        Err(e) => Err(e),
        Ok(j) => if at(s, j) == Some(')') {
            Ok(j + 1)
        } else if i < j <= s.len() {
            group_scan(s, j)
        } else {
            Ok(j)
        },
    }
}

/// An atom from `i`: a literal, `.`, `_`, an anchor, a group, a lookaround,
/// a complement `~(...)`, a class or an escape.
pub open spec fn atom_scan(s: Seq<char>, i: int) -> Scan
    decreases s.len() - i, 1int,
{
    if !(0 <= i < s.len()) {
        Err((i, "Unexpected end of input"@))
    } else if s[i] == '(' {
        if at(s, i + 1) == Some('?') {
            let kind = at(s, i + 2);
            if kind == Some(':') || kind == Some('=') || kind == Some('!') {
                group_scan(s, i + 3)
            } else if kind == Some('<') {
                if at(s, i + 3) == Some('=') || at(s, i + 3) == Some('!') {
                    group_scan(s, i + 4)
                } else {
                    Err((i + 3, "Expected '=' or '!' after '(?<'"@))
                }
            } else {
                flag_group_scan(s, i)
            }
        } else {
            group_scan(s, i + 1)
        }
    } else if s[i] == '~' {
        match expect_scan(s, i + 1, '(') {
            Err(e) => Err(e),
            Ok(j) => if i < j <= s.len() {
                group_scan(s, j)
            } else {
                Ok(j)
            },
        }
    } else if s[i] == '.' || s[i] == '_' || s[i] == '^' || s[i] == '$' {
        Ok(i + 1)
    } else if s[i] == '[' {
        class_scan(s, i)
    } else if s[i] == '\\' {
        escape_scan(s, i)
    } else if spec_is_metachar(s[i]) {
        Err((i, unexpected_metachar_text(s[i])))
    } else {
        Ok(i + 1)
    }
}

/// A whole pattern: an alternation that takes up all of it.
pub open spec fn pattern_scan(s: Seq<char>) -> Scan {
    match alternation_scan(s, 0) {
        Err(e) => Err(e),
        Ok(j) => if j < s.len() {
            Err((j, "Unexpected character"@))
        } else {
            Ok(j)
        },
    }
}

} // verus!

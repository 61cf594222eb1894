//! Parser for the ordering annotation.
//!
//! The annotation's surface form is
//! `#[iteration_order(Member1, Member2, ..., MemberN)]` — a bare marker name
//! followed by a parenthesized, comma-separated, possibly empty list of
//! identifiers. Whitespace may stand between any two tokens, and a trailing
//! comma before the closing parenthesis is permitted. The meaning of the
//! grammar is fixed by the specification-level parser below; the executable
//! parser returns exactly what it prescribes.

use vstd::prelude::*;

use crate::errors::GenError;
use crate::marker_name;

verus! {

/// Whitespace accepted between tokens of an annotation.
pub open spec fn is_ws_char(c: char) -> bool {
    c == ' ' || c == '\t' || c == '\n' || c == '\r'
}

/// Characters that may begin an identifier.
pub open spec fn is_ident_start_char(c: char) -> bool {
    c == '_' || ('a' as u32) <= (c as u32) && (c as u32) <= ('z' as u32) || ('A' as u32) <= (
    c as u32) && (c as u32) <= ('Z' as u32)
}

/// Characters that may continue an identifier.
pub open spec fn is_ident_continue_char(c: char) -> bool {
    is_ident_start_char(c) || ('0' as u32) <= (c as u32) && (c as u32) <= ('9' as u32)
}

/// The first position at or after `i` that does not hold whitespace.
pub open spec fn skip_ws(s: Seq<char>, i: int) -> int
    decreases s.len() - i
        when 0 <= i <= s.len()
{
    if i < s.len() && is_ws_char(s[i]) {
        skip_ws(s, i + 1)
    } else {
        i
    }
}

/// The first position at or after `i` that does not continue an identifier.
pub open spec fn ident_end(s: Seq<char>, i: int) -> int
    decreases s.len() - i
        when 0 <= i <= s.len()
{
    if i < s.len() && is_ident_continue_char(s[i]) {
        ident_end(s, i + 1)
    } else {
        i
    }
}

pub proof fn lemma_skip_ws_bounds(s: Seq<char>, i: int)
    requires
        0 <= i <= s.len(),
    ensures
        i <= skip_ws(s, i) <= s.len(),
    decreases s.len() - i,
{
    if i < s.len() && is_ws_char(s[i]) {
        lemma_skip_ws_bounds(s, i + 1);
    }
}

pub proof fn lemma_ident_end_bounds(s: Seq<char>, i: int)
    requires
        0 <= i <= s.len(),
    ensures
        i <= ident_end(s, i) <= s.len(),
    decreases s.len() - i,
{
    if i < s.len() && is_ident_continue_char(s[i]) {
        lemma_ident_end_bounds(s, i + 1);
    }
}

/// What parsing an annotation yields: the member names it lists, or the
/// first fault, located by character position.
pub enum Parsed {
    Members { names: Seq<Seq<char>> },
    Malformed { at: int },
    ExpectedIdentifier { at: int },
    ExpectedComma { at: int },
}

/// After the closing parenthesis (position `i`), only whitespace, the closing
/// bracket and trailing whitespace may remain.
pub open spec fn finish_frame(s: Seq<char>, i: int, acc: Seq<Seq<char>>) -> Parsed
    recommends
        0 <= i <= s.len(),
{
    let t = skip_ws(s, i);
    if t < s.len() && s[t] == ']' {
        let u = skip_ws(s, t + 1);
        if u == s.len() {
            Parsed::Members { names: acc }
        } else {
            Parsed::Malformed { at: u }
        }
    } else {
        Parsed::Malformed { at: t }
    }
}

/// The identifier list, read from position `i` (just after `(` or after a
/// separating comma), with `acc` holding the names already read.
pub open spec fn parse_items(s: Seq<char>, i: int, acc: Seq<Seq<char>>) -> Parsed
    decreases s.len() - i
        when 0 <= i <= s.len()
        via parse_items_dec
{
    let j = skip_ws(s, i);
    if j < s.len() && s[j] == ')' {
        finish_frame(s, j + 1, acc)
    } else if j < s.len() && is_ident_start_char(s[j]) {
        let e = ident_end(s, j);
        let acc2 = acc.push(s.subrange(j, e));
        let k = skip_ws(s, e);
        if k < s.len() && s[k] == ',' {
            parse_items(s, k + 1, acc2)
        } else if k < s.len() && s[k] == ')' {
            finish_frame(s, k + 1, acc2)
        } else {
            Parsed::ExpectedComma { at: k }
        }
    } else {
        Parsed::ExpectedIdentifier { at: j }
    }
}

#[via_fn]
proof fn parse_items_dec(s: Seq<char>, i: int, acc: Seq<Seq<char>>) {
    lemma_skip_ws_bounds(s, i);
    let j = skip_ws(s, i);
    if j < s.len() && !(s[j] == ')') && is_ident_start_char(s[j]) {
        lemma_ident_end_bounds(s, j + 1);
        let e = ident_end(s, j);
        assert(e == ident_end(s, j + 1));
        lemma_skip_ws_bounds(s, e);
    }
}

/// The whole annotation: the `#[iteration_order(` frame, the identifier
/// list, and the `)]` close.
pub open spec fn parse_annotation_spec(s: Seq<char>) -> Parsed {
    let i0 = skip_ws(s, 0);
    if i0 < s.len() && s[i0] == '#' {
        let i1 = skip_ws(s, i0 + 1);
        if i1 < s.len() && s[i1] == '[' {
            let i2 = skip_ws(s, i1 + 1);
            if i2 < s.len() && is_ident_start_char(s[i2]) && s.subrange(i2, ident_end(s, i2))
                == marker_name() {
                let i3 = skip_ws(s, ident_end(s, i2));
                if i3 < s.len() && s[i3] == '(' {
                    parse_items(s, i3 + 1, Seq::empty())
                } else {
                    Parsed::Malformed { at: i3 }
                }
            } else {
                Parsed::Malformed { at: i2 }
            }
        } else {
            Parsed::Malformed { at: i1 }
        }
    } else {
        Parsed::Malformed { at: i0 }
    }
}

/// The executable result returns the names, or the error, that the
/// specification-level parser prescribes for the same text.
pub open spec fn parse_result_matches(s: Seq<char>, r: Result<Vec<String>, GenError>) -> bool {
    match parse_annotation_spec(s) {
        Parsed::Members { names } => r matches Ok(v) && v.deep_view() == names,
        Parsed::Malformed { at } => r matches Err(GenError::MalformedAnnotation { at: a }) && a
            == at,
        Parsed::ExpectedIdentifier { at } => r matches Err(
            GenError::ExpectedIdentifier { at: a },
        ) && a == at,
        Parsed::ExpectedComma { at } => r matches Err(GenError::ExpectedComma { at: a }) && a == at,
    }
}

/// A well-formed bare identifier: an identifier-start character followed by
/// identifier-continue characters.
pub open spec fn is_ident(name: Seq<char>) -> bool {
    &&& name.len() > 0
    &&& is_ident_start_char(name[0])
    &&& forall|k: int| 0 <= k < name.len() ==> is_ident_continue_char(#[trigger] name[k])
}

/// The canonical rendering of an identifier list: the names separated by a
/// comma and one space.
pub open spec fn render_list(names: Seq<Seq<char>>) -> Seq<char>
    decreases names.len(),
{
    if names.len() == 0 {
        Seq::empty()
    } else if names.len() == 1 {
        names[0]
    } else {
        names[0] + seq![',', ' '] + render_list(names.drop_first())
    }
}

/// The canonical rendering of a whole ordering annotation listing `names`.
pub open spec fn render_annotation(names: Seq<Seq<char>>) -> Seq<char> {
    seq!['#', '['] + marker_name() + seq!['('] + render_list(names) + seq![')', ']']
}

proof fn lemma_skip_ws_stop(s: Seq<char>, i: int)
    requires
        0 <= i <= s.len(),
        i == s.len() || !is_ws_char(s[i]),
    ensures
        skip_ws(s, i) == i,
{
}

proof fn lemma_ident_end_region(s: Seq<char>, i: int, e: int)
    requires
        0 <= i <= e <= s.len(),
        forall|k: int| i <= k < e ==> is_ident_continue_char(#[trigger] s[k]),
        e == s.len() || !is_ident_continue_char(s[e]),
    ensures
        ident_end(s, i) == e,
    decreases e - i,
{
    if i < e {
        lemma_ident_end_region(s, i + 1, e);
    }
}

/// Two starting positions with the same whitespace skip read the same list.
proof fn lemma_parse_items_skip(s: Seq<char>, i1: int, i2: int, acc: Seq<Seq<char>>)
    requires
        0 <= i1 <= s.len(),
        0 <= i2 <= s.len(),
        skip_ws(s, i1) == skip_ws(s, i2),
    ensures
        parse_items(s, i1, acc) == parse_items(s, i2, acc),
{
}

#[verifier::rlimit(100)]
#[verifier::spinoff_prover]
proof fn lemma_parse_items_render(s: Seq<char>, i: int, acc: Seq<Seq<char>>, names: Seq<Seq<char>>)
    requires
        0 <= i <= s.len(),
        forall|k: int| 0 <= k < names.len() ==> is_ident(#[trigger] names[k]),
        s.subrange(i, s.len() as int) == render_list(names) + seq![')', ']'],
    ensures
        parse_items(s, i, acc) == (Parsed::Members { names: acc + names }),
    decreases names.len(),
{
    let n = s.len() as int;
    let tail = render_list(names) + seq![')', ']'];
    assert(n - i == tail.len());
    assert forall|t: int| 0 <= t < tail.len() implies s[i + t] == tail[t] by {
        assert(s.subrange(i, n)[t] == s[i + t]);
    }
    if names.len() == 0 {
        assert(s[i] == ')');
        assert(s[i + 1] == ']');
        assert(i + 2 == n);
        lemma_skip_ws_stop(s, i);
        lemma_skip_ws_stop(s, i + 1);
        lemma_skip_ws_stop(s, i + 2);
        assert(parse_items(s, i, acc) == finish_frame(s, i + 1, acc));
        assert(acc + names =~= acc);
    } else {
        let m = names[0];
        assert(is_ident(m));
        let e = i + m.len();
        assert forall|t: int| 0 <= t < m.len() implies tail[t] == m[t] by {
            if names.len() == 1 {
            } else {
                assert(render_list(names)[t] == (names[0] + seq![',', ' '])[t]);
            }
        }
        assert forall|k: int| i <= k < e implies is_ident_continue_char(#[trigger] s[k]) by {
            assert(s[k] == tail[k - i]);
            assert(tail[k - i] == m[k - i]);
        }
        assert(s[i] == m[0]);
        lemma_skip_ws_stop(s, i);
        if names.len() == 1 {
            assert(tail[m.len() as int] == ')');
            assert(s[e] == ')');
            lemma_ident_end_region(s, i, e);
            assert(s.subrange(i, e) =~= m);
            lemma_skip_ws_stop(s, e);
            assert(tail[m.len() as int + 1] == ']');
            assert(s[e + 1] == ']');
            assert(e + 2 == n);
            lemma_skip_ws_stop(s, e + 1);
            lemma_skip_ws_stop(s, e + 2);
            assert(parse_items(s, i, acc) == finish_frame(s, e + 1, acc.push(m)));
            assert(acc.push(m) =~= acc + names);
        } else {
            let rest = names.drop_first();
            assert(render_list(names) == m + seq![',', ' '] + render_list(rest));
            assert(tail[m.len() as int] == ',');
            assert(s[e] == ',');
            lemma_ident_end_region(s, i, e);
            assert(s.subrange(i, e) =~= m);
            lemma_skip_ws_stop(s, e);
            assert(tail[m.len() as int + 1] == ' ');
            assert(s[e + 1] == ' ');
            assert(s.subrange(e + 2, n) =~= render_list(rest) + seq![')', ']']) by {
                assert forall|t: int| 0 <= t < n - (e + 2) implies s.subrange(e + 2, n)[t] == (
                render_list(rest) + seq![')', ']'])[t] by {
                    assert(s.subrange(e + 2, n)[t] == s[e + 2 + t]);
                    assert(s[e + 2 + t] == tail[m.len() as int + 2 + t]);
                    assert(tail[m.len() as int + 2 + t] == (render_list(rest) + seq![')', ']'])[t]);
                }
            }
            lemma_parse_items_render(s, e + 2, acc.push(m), rest);
            assert(skip_ws(s, e + 1) == skip_ws(s, e + 2));
            lemma_parse_items_skip(s, e + 1, e + 2, acc.push(m));
            assert(parse_items(s, i, acc) == parse_items(s, e + 1, acc.push(m)));
            assert(acc.push(m) + rest =~= acc + names);
        }
    }
}

/// Law: the canonical rendering of any list of well-formed identifiers
/// parses back to exactly that list — the grammar loses nothing.
pub proof fn lemma_render_parse_round_trip(names: Seq<Seq<char>>)
    requires
        forall|k: int| 0 <= k < names.len() ==> is_ident(#[trigger] names[k]),
    ensures
        parse_annotation_spec(render_annotation(names)) == (Parsed::Members { names }),
{
    reveal_strlit("iteration_order");
    let s = render_annotation(names);
    let marker = marker_name();
    assert(marker.len() == 15);
    assert(s.len() == 18 + render_list(names).len() + 2);
    assert(s[0] == '#');
    lemma_skip_ws_stop(s, 0);
    assert(s[1] == '[');
    lemma_skip_ws_stop(s, 1);
    assert forall|k: int| 2 <= k < 17 implies is_ident_continue_char(#[trigger] s[k]) by {
        assert(s[k] == marker[k - 2]);
    }
    assert(s[2] == marker[0]);
    assert(is_ident_start_char(s[2]));
    lemma_skip_ws_stop(s, 2);
    assert(s[17] == '(');
    lemma_ident_end_region(s, 2, 17);
    assert(s.subrange(2, 17) =~= marker);
    lemma_skip_ws_stop(s, 17);
    assert(s.subrange(18, s.len() as int) =~= render_list(names) + seq![')', ']']);
    lemma_parse_items_render(s, 18, Seq::empty(), names);
    assert(Seq::<Seq<char>>::empty() + names =~= names);
}

fn is_ws_exec(c: char) -> (r: bool)
    ensures
        r == is_ws_char(c),
{
    c == ' ' || c == '\t' || c == '\n' || c == '\r'
}

fn is_ident_start_exec(c: char) -> (r: bool)
    ensures
        r == is_ident_start_char(c),
{
    c == '_' || ('a' as u32) <= (c as u32) && (c as u32) <= ('z' as u32) || ('A' as u32) <= (
    c as u32) && (c as u32) <= ('Z' as u32)
}

fn is_ident_continue_exec(c: char) -> (r: bool)
    ensures
        r == is_ident_continue_char(c),
{
    is_ident_start_exec(c) || ('0' as u32) <= (c as u32) && (c as u32) <= ('9' as u32)
}

fn skip_ws_exec(s: &str, n: usize, i: usize) -> (r: usize)
    requires
        n == s@.len(),
        i <= n,
    ensures
        r as int == skip_ws(s@, i as int),
        i <= r <= n,
{
    let mut j = i;
    loop
        invariant
            i <= j <= n,
            n == s@.len(),
            skip_ws(s@, i as int) == skip_ws(s@, j as int),
        decreases n - j,
    {
        if j < n {
            let c = s.get_char(j);
            if is_ws_exec(c) {
                j = j + 1;
                continue ;
            }
        }
        proof {
            lemma_skip_ws_bounds(s@, j as int);
        }
        return j;
    }
}

fn ident_end_exec(s: &str, n: usize, i: usize) -> (r: usize)
    requires
        n == s@.len(),
        i <= n,
    ensures
        r as int == ident_end(s@, i as int),
        i <= r <= n,
{
    let mut j = i;
    loop
        invariant
            i <= j <= n,
            n == s@.len(),
            ident_end(s@, i as int) == ident_end(s@, j as int),
        decreases n - j,
    {
        if j < n {
            let c = s.get_char(j);
            if is_ident_continue_exec(c) {
                j = j + 1;
                continue ;
            }
        }
        proof {
            lemma_ident_end_bounds(s@, j as int);
        }
        return j;
    }
}

/// Read the close of the frame, `i` standing just after the `)`.
fn finish_frame_exec(s: &str, n: usize, i: usize, acc: Vec<String>) -> (r: Result<
    Vec<String>,
    GenError,
>)
    requires
        n == s@.len(),
        i <= n,
    ensures
        match finish_frame(s@, i as int, acc.deep_view()) {
            Parsed::Members { names } => r matches Ok(v) && v.deep_view() == names,
            Parsed::Malformed { at } => r matches Err(GenError::MalformedAnnotation { at: a }) && a
                == at,
            _ => false,
        },
{
    let t = skip_ws_exec(s, n, i);
    if t < n && s.get_char(t) == ']' {
        let u = skip_ws_exec(s, n, t + 1);
        if u == n {
            Ok(acc)
        } else {
            Err(GenError::MalformedAnnotation { at: u })
        }
    } else {
        Err(GenError::MalformedAnnotation { at: t })
    }
}

/// Parse the text of one ordering annotation, yielding the member names it
/// lists in order. Success, the names, and each distinct parse fault with
/// its position are exactly those of the grammar's specification-level
/// parser, `parse_annotation_spec`.
pub fn parse_annotation(s: &str) -> (r: Result<Vec<String>, GenError>)
    ensures
        parse_result_matches(s@, r),
{
    let n = s.unicode_len();
    let i0 = skip_ws_exec(s, n, 0);
    if !(i0 < n && s.get_char(i0) == '#') {
        return Err(GenError::MalformedAnnotation { at: i0 });
    }
    let i1 = skip_ws_exec(s, n, i0 + 1);
    if !(i1 < n && s.get_char(i1) == '[') {
        return Err(GenError::MalformedAnnotation { at: i1 });
    }
    let i2 = skip_ws_exec(s, n, i1 + 1);
    if !(i2 < n && is_ident_start_exec(s.get_char(i2))) {
        return Err(GenError::MalformedAnnotation { at: i2 });
    }
    let e2 = ident_end_exec(s, n, i2);
    let marker = s.substring_char(i2, e2);
    if !(marker.to_owned() == String::from_str("iteration_order")) {
        return Err(GenError::MalformedAnnotation { at: i2 });
    }
    let i3 = skip_ws_exec(s, n, e2);
    if !(i3 < n && s.get_char(i3) == '(') {
        return Err(GenError::MalformedAnnotation { at: i3 });
    }
    let start = i3 + 1;
    let mut acc: Vec<String> = Vec::new();
    let mut i = start;
    proof {
        assert(acc.deep_view() =~= Seq::<Seq<char>>::empty());
    }
    loop
        invariant
            i <= n,
            n == s@.len(),
            parse_items(s@, start as int, Seq::empty()) == parse_items(
                s@,
                i as int,
                acc.deep_view(),
            ),
            parse_annotation_spec(s@) == parse_items(s@, start as int, Seq::empty()),
        decreases n - i,
    {
        let j = skip_ws_exec(s, n, i);
        if j < n && s.get_char(j) == ')' {
            return finish_frame_exec(s, n, j + 1, acc);
        }
        if !(j < n && is_ident_start_exec(s.get_char(j))) {
            return Err(GenError::ExpectedIdentifier { at: j });
        }
        let e = ident_end_exec(s, n, j);
        proof {
            assert(ident_end(s@, j as int) == ident_end(s@, j + 1));
            lemma_ident_end_bounds(s@, j + 1);
        }
        let name = s.substring_char(j, e);
        let ghost old_acc = acc.deep_view();
        acc.push(name.to_owned());
        proof {
            assert(acc.deep_view() =~= old_acc.push(s@.subrange(j as int, e as int)));
        }
        let k = skip_ws_exec(s, n, e);
        if k < n && s.get_char(k) == ',' {
            i = k + 1;
        } else if k < n && s.get_char(k) == ')' {
            return finish_frame_exec(s, n, k + 1, acc);
        } else {
            return Err(GenError::ExpectedComma { at: k });
        }
    }
}

} // verus!

use vstd::prelude::*;
use vstd::string::StringSliceAdditionalSpecFns;

verus! {

// ---------------------------------------------------------------------------
// Bracket matching
//
// Four bracket pairs are recognized: (), [], {}, <>.  Brackets are ASCII, so
// the scan works byte by byte: a byte inside a multi-byte character is never
// a bracket and is skipped exactly as the character scan of a `&str` would
// skip a non-bracket character.
// ---------------------------------------------------------------------------

/// For a bracket byte, the byte of its partner and whether this byte opens
/// the pair; `None` for any other byte.
pub open spec fn bracket_info(b: u8) -> Option<(u8, bool)> {
    if b == 40 {  // (
        Some((41u8, true))
    } else if b == 41 {  // )
        Some((40u8, false))
    } else if b == 91 {  // [
        Some((93u8, true))
    } else if b == 93 {  // ]
        Some((91u8, false))
    } else if b == 123 {  // {
        Some((125u8, true))
    } else if b == 125 {  // }
        Some((123u8, false))
    } else if b == 60 {  // <
        Some((62u8, true))
    } else if b == 62 {  // >
        Some((60u8, false))
    } else {
        None
    }
}

/// Returns the partner byte and whether `b` opens a pair, as `bracket_info`
/// states it.
fn other_paren(b: u8) -> (r: Option<(u8, bool)>)
    ensures
        r == bracket_info(b),
{
    match b {
        40 => Some((41u8, true)),
        41 => Some((40u8, false)),
        91 => Some((93u8, true)),
        93 => Some((91u8, false)),
        123 => Some((125u8, true)),
        125 => Some((123u8, false)),
        60 => Some((62u8, true)),
        62 => Some((60u8, false)),
        _ => None,
    }
}

/// Scan forward from `i`, holding the closers still expected (innermost
/// last).  Every further opener pushes its expected closer; every closer must
/// equal the innermost expectation (a mismatched type yields no match);
/// popping the last expectation returns that closer's index.
pub open spec fn fwd_scan(s: Seq<u8>, i: int, stack: Seq<u8>) -> Option<int>
    decreases s.len() - i,
{
    if !(0 <= i < s.len()) || stack.len() == 0 {
        None
    } else {
        match bracket_info(s[i]) {
            Option::None => fwd_scan(s, i + 1, stack),
            Option::Some((other, opens)) => {
                if opens {
                    fwd_scan(s, i + 1, stack.push(other))
                } else if stack.last() != s[i] {
                    None
                } else if stack.len() == 1 {
                    Some(i)
                } else {
                    fwd_scan(s, i + 1, stack.drop_last())
                }
            },
        }
    }
}

/// Scan backward over positions `i-1, i-2, ...`, holding the openers still
/// expected, symmetrically to `fwd_scan`.
pub open spec fn bwd_scan(s: Seq<u8>, i: int, stack: Seq<u8>) -> Option<int>
    decreases i,
{
    if !(0 < i <= s.len()) || stack.len() == 0 {
        None
    } else {
        match bracket_info(s[i - 1]) {
            Option::None => bwd_scan(s, i - 1, stack),
            Option::Some((other, opens)) => {
                if !opens {
                    bwd_scan(s, i - 1, stack.push(other))
                } else if stack.last() != s[i - 1] {
                    None
                } else if stack.len() == 1 {
                    Some(i - 1)
                } else {
                    bwd_scan(s, i - 1, stack.drop_last())
                }
            },
        }
    }
}

/// The index of the bracket matching the one at `index`: scanning forward
/// when it opens a pair, backward when it closes one, and no match at all
/// when the byte there is not a bracket.
pub open spec fn matching_paren(s: Seq<u8>, index: int) -> Option<int> {
    match bracket_info(s[index]) {
        Option::None => None,
        Option::Some((other, opens)) => {
            if opens {
                fwd_scan(s, index + 1, seq![other])
            } else {
                bwd_scan(s, index, seq![other])
            }
        },
    }
}

/// Find the index of the bracket matching the one at `index` of `context`,
/// scanning byte by byte; `None` when the byte at `index` is not a bracket,
/// when the bracket kinds do not nest properly, or when the scan runs off the
/// buffer.
pub fn find_matching_paren_bytes(context: &[u8], index: usize) -> (r: Option<usize>)
    requires
        index < context@.len(),
    ensures
        match r {
            Option::Some(m) => matching_paren(context@, index as int) == Some(m as int) && m
                < context@.len(),
            Option::None => matching_paren(context@, index as int) is None,
        },
{
    let b = context[index];
    let info = other_paren(b);
    match info {
        Option::None => None,
        Option::Some((other, opens)) => {
            let mut stack: Vec<u8> = Vec::new();
            stack.push(other);
            if opens {
                let mut i: usize = index + 1;
                proof {
                    assert(stack@ =~= seq![other]);
                }
                loop
                    invariant
                        index < context@.len(),
                        bracket_info(context@[index as int]) == Some((other, true)),
                        index < i <= context@.len(),
                        stack@.len() >= 1,
                        fwd_scan(context@, index as int + 1, seq![other]) == fwd_scan(
                            context@,
                            i as int,
                            stack@,
                        ),
                    decreases context@.len() - i,
                {
                    if i >= context.len() {
                        return None;
                    }
                    let c = context[i];
                    match other_paren(c) {
                        Option::None => {},
                        Option::Some((co, copens)) => {
                            if copens {
                                stack.push(co);
                            } else {
                                let top = stack[stack.len() - 1];
                                if top != c {
                                    return None;
                                }
                                if stack.len() == 1 {
                                    return Some(i);
                                }
                                let ghost pre = stack@;
                                stack.pop();
                                proof {
                                    assert(stack@ =~= pre.drop_last());
                                }
                            }
                        },
                    }
                    i = i + 1;
                }
            } else {
                let mut i: usize = index;
                proof {
                    assert(stack@ =~= seq![other]);
                }
                loop
                    invariant
                        index < context@.len(),
                        bracket_info(context@[index as int]) == Some((other, false)),
                        i <= index,
                        stack@.len() >= 1,
                        bwd_scan(context@, index as int, seq![other]) == bwd_scan(context@, i as int, stack@),
                    decreases i,
                {
                    if i == 0 {
                        return None;
                    }
                    let c = context[i - 1];
                    match other_paren(c) {
                        Option::None => {},
                        Option::Some((co, copens)) => {
                            if !copens {
                                stack.push(co);
                            } else {
                                let top = stack[stack.len() - 1];
                                if top != c {
                                    return None;
                                }
                                if stack.len() == 1 {
                                    return Some(i - 1);
                                }
                                let ghost pre = stack@;
                                stack.pop();
                                proof {
                                    assert(stack@ =~= pre.drop_last());
                                }
                            }
                        },
                    }
                    i = i - 1;
                }
            }
        },
    }
}

/// Find the byte index of the bracket matching the one at byte `index` of
/// `context`.  `index` must lie on a character boundary and be followed by
/// one (the bracket characters are one byte wide).
pub fn find_matching_paren(context: &str, index: usize) -> (r: Option<usize>)
    requires
        index + 1 <= context.spec_bytes().len(),
        vstd::utf8::is_char_boundary(context.spec_bytes(), index as int),
        vstd::utf8::is_char_boundary(context.spec_bytes(), index as int + 1),
    ensures
        match r {
            Option::Some(m) => matching_paren(context.spec_bytes(), index as int) == Some(m as int),
            Option::None => matching_paren(context.spec_bytes(), index as int) is None,
        },
{
    find_matching_paren_bytes(context.as_bytes(), index)
}

/// A successful forward scan stops inside the buffer, at a closing bracket
/// equal to the scan's outermost expectation.
proof fn lemma_fwd_pos(s: Seq<u8>, a: int, st: Seq<u8>, j: int)
    requires
        st.len() >= 1,
        fwd_scan(s, a, st) == Some(j),
    ensures
        a <= j < s.len(),
        s[j] == st[0],
        bracket_info(s[j]) matches Some((o, opens)) && !opens,
    decreases s.len() - a,
{
    if !(0 <= a < s.len()) {
    } else {
        match bracket_info(s[a]) {
            Option::None => lemma_fwd_pos(s, a + 1, st, j),
            Option::Some((other, opens)) => {
                if opens {
                    lemma_fwd_pos(s, a + 1, st.push(other), j);
                } else if st.last() != s[a] {
                } else if st.len() == 1 {
                } else {
                    lemma_fwd_pos(s, a + 1, st.drop_last(), j);
                }
            },
        }
    }
}

/// A successful backward scan stops inside the buffer, at an opening bracket
/// equal to the scan's outermost expectation.
proof fn lemma_bwd_pos(s: Seq<u8>, a: int, st: Seq<u8>, j: int)
    requires
        st.len() >= 1,
        bwd_scan(s, a, st) == Some(j),
    ensures
        0 <= j < a <= s.len(),
        s[j] == st[0],
        bracket_info(s[j]) matches Some((o, opens)) && opens,
    decreases a,
{
    if !(0 < a <= s.len()) {
    } else {
        match bracket_info(s[a - 1]) {
            Option::None => lemma_bwd_pos(s, a - 1, st, j),
            Option::Some((other, opens)) => {
                if !opens {
                    lemma_bwd_pos(s, a - 1, st.push(other), j);
                } else if st.last() != s[a - 1] {
                } else if st.len() == 1 {
                } else {
                    lemma_bwd_pos(s, a - 1, st.drop_last(), j);
                }
            },
        }
    }
}

/// A forward scan with a deeper expectation stack first resolves the
/// innermost expectation alone, then goes on with the rest of the stack.
proof fn lemma_fwd_split(s: Seq<u8>, a: int, st: Seq<u8>, c: u8)
    requires
        st.len() >= 1,
    ensures
        fwd_scan(s, a, st.push(c)) == match fwd_scan(s, a, seq![c]) {
            Option::None => None::<int>,
            Option::Some(m) => fwd_scan(s, m + 1, st),
        },
    decreases s.len() - a,
{
    if !(0 <= a < s.len()) {
    } else {
        match bracket_info(s[a]) {
            Option::None => lemma_fwd_split(s, a + 1, st, c),
            Option::Some((other, opens)) => {
                if opens {
                    assert(st.push(c).push(other).drop_last() =~= st.push(c));
                    lemma_fwd_split(s, a + 1, st.push(c), other);
                    match fwd_scan(s, a + 1, seq![other]) {
                        Option::None => {
                            lemma_fwd_split(s, a + 1, seq![c], other);
                        },
                        Option::Some(m1) => {
                            lemma_fwd_pos(s, a + 1, seq![other], m1);
                            lemma_fwd_split(s, m1 + 1, st, c);
                            lemma_fwd_split(s, a + 1, seq![c], other);
                        },
                    }
                } else if s[a] != c {
                    assert(st.push(c).last() == c);
                } else {
                    assert(st.push(c).last() == c);
                    assert(st.push(c).drop_last() =~= st);
                    assert(fwd_scan(s, a, seq![c]) == Some(a));
                }
            },
        }
    }
}

/// A backward scan with a deeper expectation stack first resolves the
/// innermost expectation alone, then goes on with the rest of the stack.
proof fn lemma_bwd_split(s: Seq<u8>, a: int, st: Seq<u8>, o: u8)
    requires
        st.len() >= 1,
    ensures
        bwd_scan(s, a, st.push(o)) == match bwd_scan(s, a, seq![o]) {
            Option::None => None::<int>,
            Option::Some(m) => bwd_scan(s, m, st),
        },
    decreases a,
{
    if !(0 < a <= s.len()) {
    } else {
        match bracket_info(s[a - 1]) {
            Option::None => lemma_bwd_split(s, a - 1, st, o),
            Option::Some((other, opens)) => {
                if !opens {
                    assert(st.push(o).push(other).drop_last() =~= st.push(o));
                    lemma_bwd_split(s, a - 1, st.push(o), other);
                    match bwd_scan(s, a - 1, seq![other]) {
                        Option::None => {
                            lemma_bwd_split(s, a - 1, seq![o], other);
                        },
                        Option::Some(m1) => {
                            lemma_bwd_pos(s, a - 1, seq![other], m1);
                            lemma_bwd_split(s, m1, st, o);
                            lemma_bwd_split(s, a - 1, seq![o], other);
                        },
                    }
                } else if s[a - 1] != o {
                    assert(st.push(o).last() == o);
                } else {
                    assert(st.push(o).last() == o);
                    assert(st.push(o).drop_last() =~= st);
                    assert(bwd_scan(s, a, seq![o]) == Some(a - 1));
                }
            },
        }
    }
}

/// The stretch a successful forward scan walks over is transparent to any
/// backward scan: scanning backward over it changes nothing about the
/// expectation stack.
proof fn lemma_fwd_transparent(s: Seq<u8>, a: int, c: u8, j: int, st: Seq<u8>)
    requires
        fwd_scan(s, a, seq![c]) == Some(j),
        st.len() >= 1,
    ensures
        bwd_scan(s, j, st) == bwd_scan(s, a, st),
    decreases j - a,
{
    lemma_fwd_pos(s, a, seq![c], j);
    match bracket_info(s[a]) {
        Option::None => {
            lemma_fwd_transparent(s, a + 1, c, j, st);
            assert(bwd_scan(s, a + 1, st) == bwd_scan(s, a, st));
        },
        Option::Some((c1, opens)) => {
            if opens {
                assert(seq![c].push(c1).drop_last() =~= seq![c]);
                lemma_fwd_split(s, a + 1, seq![c], c1);
                let m = choose|m: int| fwd_scan(s, a + 1, seq![c1]) == Some(m) && fwd_scan(
                    s,
                    m + 1,
                    seq![c],
                ) == Some(j);
                lemma_fwd_pos(s, a + 1, seq![c1], m);
                lemma_fwd_pos(s, m + 1, seq![c], j);
                lemma_fwd_transparent(s, m + 1, c, j, st);
                assert(bwd_scan(s, m + 1, st) == bwd_scan(s, m, st.push(s[a])));
                lemma_fwd_transparent(s, a + 1, c1, m, st.push(s[a]));
                assert(bwd_scan(s, a + 1, st.push(s[a])) == bwd_scan(s, a, st)) by {
                    assert(st.push(s[a]).last() == s[a]);
                    assert(st.push(s[a]).drop_last() =~= st);
                }
            } else {
                assert(j == a);
            }
        },
    }
}

/// The stretch a successful backward scan walks over is transparent to any
/// forward scan.
proof fn lemma_bwd_transparent(s: Seq<u8>, a: int, o: u8, j: int, st: Seq<u8>)
    requires
        bwd_scan(s, a, seq![o]) == Some(j),
        st.len() >= 1,
    ensures
        fwd_scan(s, j + 1, st) == fwd_scan(s, a, st),
    decreases a - j,
{
    lemma_bwd_pos(s, a, seq![o], j);
    match bracket_info(s[a - 1]) {
        Option::None => {
            lemma_bwd_transparent(s, a - 1, o, j, st);
            assert(fwd_scan(s, a - 1, st) == fwd_scan(s, a, st));
        },
        Option::Some((o1, opens)) => {
            if !opens {
                assert(seq![o].push(o1).drop_last() =~= seq![o]);
                lemma_bwd_split(s, a - 1, seq![o], o1);
                let m = choose|m: int| bwd_scan(s, a - 1, seq![o1]) == Some(m) && bwd_scan(
                    s,
                    m,
                    seq![o],
                ) == Some(j);
                lemma_bwd_pos(s, a - 1, seq![o1], m);
                lemma_bwd_pos(s, m, seq![o], j);
                lemma_bwd_transparent(s, m, o, j, st);
                assert(fwd_scan(s, j + 1, st) == fwd_scan(s, m, st));
                assert(fwd_scan(s, m, st) == fwd_scan(s, m + 1, st.push(s[a - 1])));
                lemma_bwd_transparent(s, a - 1, o1, m, st.push(s[a - 1]));
                assert(fwd_scan(s, a - 1, st.push(s[a - 1])) == fwd_scan(s, a, st)) by {
                    assert(st.push(s[a - 1]).last() == s[a - 1]);
                    assert(st.push(s[a - 1]).drop_last() =~= st);
                }
            } else {
                assert(j == a - 1);
            }
        },
    }
}

/// LAW: bracket matching is an involution.  For every bracket kind and any
/// nesting, if the bracket at `i` matches the one at `j`, then the bracket at
/// `j` matches the one at `i`.
pub proof fn lemma_matching_paren_involution(s: Seq<u8>, i: int, j: int)
    requires
        0 <= i < s.len(),
        matching_paren(s, i) == Some(j),
    ensures
        0 <= j < s.len(),
        matching_paren(s, j) == Some(i),
{
    match bracket_info(s[i]) {
        Option::None => {
            assert(false);
        },
        Option::Some((other, opens)) => {
            if opens {
                lemma_fwd_pos(s, i + 1, seq![other], j);
                assert(s[j] == other);
                assert(bracket_info(s[j]) == Some((s[i], false)));
                lemma_fwd_transparent(s, i + 1, other, j, seq![s[i]]);
                assert(bwd_scan(s, i + 1, seq![s[i]]) == Some(i));
            } else {
                lemma_bwd_pos(s, i, seq![other], j);
                assert(s[j] == other);
                assert(bracket_info(s[j]) == Some((s[i], true)));
                lemma_bwd_transparent(s, i, other, j, seq![s[i]]);
                assert(fwd_scan(s, i, seq![s[i]]) == Some(i));
            }
        },
    }
}

/// LAW: a match is never partial or of the wrong kind.  Whenever the bracket
/// at `i` matches position `j`, the byte at `j` is exactly the partner
/// bracket of the one at `i`, on the proper side.
pub proof fn lemma_match_is_partner(s: Seq<u8>, i: int, j: int)
    requires
        0 <= i < s.len(),
        matching_paren(s, i) == Some(j),
    ensures
        0 <= j < s.len(),
        i != j,
        bracket_info(s[i]) matches Some(p) && s[j] == p.0,
        (bracket_info(s[i]) matches Some((o, opens)) && opens ==> i < j),
        (bracket_info(s[i]) matches Some((o, opens)) && !opens ==> j < i),
{
    match bracket_info(s[i]) {
        Option::None => {
            assert(false);
        },
        Option::Some((other, opens)) => {
            if opens {
                lemma_fwd_pos(s, i + 1, seq![other], j);
            } else {
                lemma_bwd_pos(s, i, seq![other], j);
            }
        },
    }
}

// ---------------------------------------------------------------------------
// Template scanning
//
// A template holds placeholders of the two forms `$name` (a letter followed
// by letters, digits or underscores) and `${name}` (any non-empty run of
// bytes other than `}`, between braces).  Matches are found left to right
// and never overlap.
// ---------------------------------------------------------------------------

/// One placeholder found in a template: the byte range of the whole
/// placeholder and the byte range of the name inside it.
#[derive(Clone, Copy, Debug)]
pub struct TemplateMatch {
    pub start: usize,
    pub end: usize,
    pub name_start: usize,
    pub name_end: usize,
}

/// A letter, as the first character of a bare `$name` placeholder.
pub open spec fn is_template_letter(b: u8) -> bool {
    (65 <= b <= 90) || (97 <= b <= 122)
}

/// A letter, digit or underscore, as the later characters of `$name`.
pub open spec fn is_template_name_byte(b: u8) -> bool {
    is_template_letter(b) || (48 <= b <= 57) || b == 95
}

/// How many name bytes follow from position `e` on.
pub open spec fn name_run_len(s: Seq<u8>, e: int) -> nat
    decreases s.len() - e,
{
    if 0 <= e < s.len() && is_template_name_byte(s[e]) {
        1 + name_run_len(s, e + 1)
    } else {
        0
    }
}

/// The offset of the first `}` at or after `e`, if any.
pub open spec fn brace_close_offset(s: Seq<u8>, e: int) -> Option<nat>
    decreases s.len() - e,
{
    if !(0 <= e < s.len()) {
        None
    } else if s[e] == 125 {
        Some(0)
    } else {
        match brace_close_offset(s, e + 1) {
            Option::Some(k) => Some((k + 1) as nat),
            Option::None => None,
        }
    }
}

/// The placeholder starting exactly at `p`, if any, as
/// `(end, name_start, name_end)`.
pub open spec fn template_match_at(s: Seq<u8>, p: int) -> Option<(int, int, int)> {
    if s[p] == 36 && p + 1 < s.len() && is_template_letter(s[p + 1]) {
        let e = p + 2 + name_run_len(s, p + 2);
        Some((e, p + 1, e))
    } else if s[p] == 36 && s.len() > 2 && p < s.len() - 2 && s[p + 1] == 123 && s[p + 2] != 125 {
        match brace_close_offset(s, p + 2) {
            Option::Some(k) => Some((p + 3 + k, p + 2, p + 2 + k)),
            Option::None => None,
        }
    } else {
        None
    }
}

/// All placeholders from position `p` on, left to right and non-overlapping,
/// as `(start, end, name_start, name_end)` tuples.
pub open spec fn template_matches_from(s: Seq<u8>, p: int) -> Seq<(int, int, int, int)>
    decreases s.len() - p, 0int via template_matches_dec
{
    if !(0 <= p < s.len()) {
        Seq::empty()
    } else {
        match template_match_at(s, p) {
            Option::Some((e, ns, ne)) => {
                if p < e <= s.len() {
                    seq![(p, e, ns, ne)] + template_matches_from(s, e)
                } else {
                    Seq::empty()
                }
            },
            Option::None => template_matches_from(s, p + 1),
        }
    }
}

#[via_fn]
proof fn template_matches_dec(s: Seq<u8>, p: int) {
}

/// The view of the scanned matches, for comparing with the specification.
pub open spec fn tm_view(ms: Seq<TemplateMatch>) -> Seq<(int, int, int, int)> {
    ms.map_values(
        |m: TemplateMatch|
            (m.start as int, m.end as int, m.name_start as int, m.name_end as int),
    )
}

/// The run of name bytes stays within the buffer.
proof fn lemma_name_run_len_bound(s: Seq<u8>, e: int)
    requires
        0 <= e <= s.len(),
    ensures
        e + name_run_len(s, e) <= s.len(),
    decreases s.len() - e,
{
    if e < s.len() && is_template_name_byte(s[e]) {
        lemma_name_run_len_bound(s, e + 1);
    }
}

/// Where the first closing brace stands, and that none stands before it.
proof fn lemma_brace_close_offset(s: Seq<u8>, e: int)
    requires
        0 <= e,
        brace_close_offset(s, e) is Some,
    ensures
        e + brace_close_offset(s, e)->Some_0 < s.len(),
        s[e + brace_close_offset(s, e)->Some_0] == 125,
    decreases s.len() - e,
{
    if e < s.len() && s[e] != 125 {
        lemma_brace_close_offset(s, e + 1);
    }
}

/// Scan a template for its placeholders, left to right.
pub fn scan_template(s: &[u8]) -> (r: Vec<TemplateMatch>)
    ensures
        tm_view(r@) == template_matches_from(s@, 0),
{
    let mut r: Vec<TemplateMatch> = Vec::new();
    let mut p: usize = 0;
    proof {
        assert(tm_view(r@) =~= Seq::<(int, int, int, int)>::empty());
        assert(tm_view(r@) + template_matches_from(s@, 0) =~= template_matches_from(s@, 0));
    }
    while p < s.len()
        invariant
            p <= s@.len(),
            template_matches_from(s@, 0) == tm_view(r@) + template_matches_from(s@, p as int),
        decreases s@.len() - p,
    {
        let ghost p0 = p as int;
        let mut matched: bool = false;
        let mut m_end: usize = 0;
        let mut m_ns: usize = 0;
        let mut m_ne: usize = 0;
        if s[p] == 36 && p + 1 < s.len() && is_letter_byte(s[p + 1]) {
            // $name
            let start = p + 2;
            let mut e: usize = start;
            while e < s.len() && is_name_byte(s[e])
                invariant
                    start <= e <= s@.len(),
                    start == p0 + 2,
                    name_run_len(s@, start as int) == e - start + name_run_len(s@, e as int),
                decreases s@.len() - e,
            {
                e = e + 1;
            }
            proof {
                assert(name_run_len(s@, e as int) == 0);
            }
            matched = true;
            m_end = e;
            m_ns = p + 1;
            m_ne = e;
            proof {
                assert(template_match_at(s@, p0) == Some((e as int, p0 + 1, e as int)));
            }
        } else if s[p] == 36 && s.len() > 2 && p < s.len() - 2 && s[p + 1] == 123 && s[p + 2] != 125 {
            // ${name}
            let start = p + 2;
            let mut e: usize = start;
            while e < s.len() && s[e] != 125
                invariant
                    start <= e <= s@.len(),
                    start == p0 + 2,
                    brace_close_offset(s@, start as int) == match brace_close_offset(
                        s@,
                        e as int,
                    ) {
                        Option::Some(k) => Some((k + e - start) as nat),
                        Option::None => None::<nat>,
                    },
                decreases s@.len() - e,
            {
                e = e + 1;
            }
            if e < s.len() {
                proof {
                    assert(brace_close_offset(s@, e as int) == Some(0nat));
                    assert(brace_close_offset(s@, start as int) == Some((e - start) as nat));
                    assert(template_match_at(s@, p0) == Some(
                        (e as int + 1, p0 + 2, e as int),
                    ));
                }
                matched = true;
                m_end = e + 1;
                m_ns = p + 2;
                m_ne = e;
            } else {
                proof {
                    assert(brace_close_offset(s@, e as int) is None);
                    assert(brace_close_offset(s@, start as int) is None);
                    assert(template_match_at(s@, p0) is None);
                }
            }
        } else {
            proof {
                assert(template_match_at(s@, p0) is None);
            }
        }
        if matched {
            let ghost old_r = r@;
            r.push(
                TemplateMatch { start: p, end: m_end, name_start: m_ns, name_end: m_ne },
            );
            proof {
                assert(tm_view(r@) =~= tm_view(old_r).push(
                    (p0, m_end as int, m_ns as int, m_ne as int),
                ));
                assert(template_matches_from(s@, p0) == seq![
                    (p0, m_end as int, m_ns as int, m_ne as int),
                ] + template_matches_from(s@, m_end as int));
                assert(tm_view(r@) + template_matches_from(s@, m_end as int)
                    =~= tm_view(old_r) + template_matches_from(s@, p0));
            }
            p = m_end;
        } else {
            proof {
                assert(template_matches_from(s@, p0) == template_matches_from(s@, p0 + 1));
            }
            p = p + 1;
        }
    }
    proof {
        assert(template_matches_from(s@, p as int) =~= Seq::<(int, int, int, int)>::empty());
        assert(tm_view(r@) + template_matches_from(s@, p as int) =~= tm_view(r@));
    }
    r
}

/// Whether `b` is a letter, as `is_template_letter` states it.
fn is_letter_byte(b: u8) -> (r: bool)
    ensures
        r == is_template_letter(b),
{
    (65 <= b && b <= 90) || (97 <= b && b <= 122)
}

/// Whether `b` may continue a bare name, as `is_template_name_byte` states it.
fn is_name_byte(b: u8) -> (r: bool)
    ensures
        r == is_template_name_byte(b),
{
    is_letter_byte(b) || (48 <= b && b <= 57) || b == 95
}

/// Placeholders lie in order inside the template, never overlap, and hold
/// their name range inside their own range.
pub proof fn lemma_template_matches_wf(s: Seq<u8>, p: int)
    requires
        0 <= p,
    ensures
        forall|i: int|
            0 <= i < template_matches_from(s, p).len() ==> {
                let m = #[trigger] template_matches_from(s, p)[i];
                p <= m.0 && m.0 < m.1 <= s.len() && m.0 <= m.2 && m.2 <= m.3 && m.3 <= m.1
            },
        forall|i: int|
            0 <= i < template_matches_from(s, p).len() - 1 ==> (#[trigger] template_matches_from(
                s,
                p,
            )[i]).1 <= template_matches_from(s, p)[i + 1].0,
    decreases s.len() - p,
{
    let tms = template_matches_from(s, p);
    if !(0 <= p < s.len()) {
    } else {
        match template_match_at(s, p) {
            Option::None => {
                lemma_template_matches_wf(s, p + 1);
                let rest = template_matches_from(s, p + 1);
                assert(tms == rest);
                assert forall|i: int| 0 <= i < tms.len() implies {
                    let m = #[trigger] tms[i];
                    p <= m.0 && m.0 < m.1 <= s.len() && m.0 <= m.2 && m.2 <= m.3 && m.3 <= m.1
                } by {
                    assert(rest[i] == tms[i]);
                    assert({
                        let m = rest[i];
                        p + 1 <= m.0 && m.0 < m.1 <= s.len() && m.0 <= m.2 && m.2 <= m.3 && m.3
                            <= m.1
                    });
                }
                assert forall|i: int| 0 <= i < tms.len() - 1 implies (#[trigger] tms[i]).1
                    <= tms[i + 1].0 by {
                    assert(rest[i] == tms[i] && rest[i + 1] == tms[i + 1]);
                }
            },
            Option::Some((e, ns, ne)) => {
                if p < e <= s.len() {
                    if s[p] == 36 && p + 1 < s.len() && is_template_letter(s[p + 1]) {
                        lemma_name_run_len_bound(s, p + 2);
                    } else {
                        lemma_brace_close_offset(s, p + 2);
                    }
                    lemma_template_matches_wf(s, e);
                    let rest = template_matches_from(s, e);
                    assert(tms == seq![(p, e, ns, ne)] + rest);
                    assert(forall|i: int| 0 <= i < rest.len() ==> tms[i + 1] == rest[i]);
                    assert(tms[0] == (p, e, ns, ne));
                    assert(p <= ns && ns <= ne && ne <= e);
                    assert forall|i: int| 0 <= i < tms.len() implies {
                        let m = #[trigger] tms[i];
                        p <= m.0 && m.0 < m.1 <= s.len() && m.0 <= m.2 && m.2 <= m.3 && m.3
                            <= m.1
                    } by {
                        if i > 0 {
                            assert(tms[i] == rest[i - 1]);
                        }
                    }
                    assert forall|i: int| 0 <= i < tms.len() - 1 implies (#[trigger] tms[i]).1
                        <= tms[i + 1].0 by {
                        if i == 0 {
                            assert(tms[1] == rest[0]);
                            assert(e <= rest[0].0);
                        } else {
                            assert(tms[i] == rest[i - 1] && tms[i + 1] == rest[i]);
                        }
                    }
                }
            },
        }
    }
    assert forall|i: int| 0 <= i < template_matches_from(s, p).len() implies {
        let m = #[trigger] template_matches_from(s, p)[i];
        p <= m.0 && m.0 < m.1 <= s.len() && m.0 <= m.2 && m.2 <= m.3 && m.3 <= m.1
    } by {
        assert(template_matches_from(s, p)[i] == tms[i]);
    }
    assert forall|i: int|
        0 <= i < template_matches_from(s, p).len() - 1 implies (#[trigger] template_matches_from(
        s,
        p,
    )[i]).1 <= template_matches_from(s, p)[i + 1].0 by {
        assert(template_matches_from(s, p)[i] == tms[i]);
    }
}

/// The bytes of a template after substituting each placeholder: for each
/// match in order, the untouched stretch before it, then the resolved value
/// (or the placeholder as written, where no value was resolved); then the
/// tail.
pub open spec fn apply_matches(
    s: Seq<u8>,
    ms: Seq<(int, int, int, int)>,
    vals: Seq<Option<Seq<u8>>>,
    from: int,
) -> Seq<u8>
    decreases ms.len(),
{
    if ms.len() == 0 {
        s.subrange(from, s.len() as int)
    } else {
        s.subrange(from, ms.first().0) + (match vals.first() {
            Option::Some(v) => v,
            Option::None => s.subrange(ms.first().0, ms.first().1),
        }) + apply_matches(s, ms.drop_first(), vals.drop_first(), ms.first().1)
    }
}

/// Substitute the resolved values into the template, left to right.
pub fn apply_template_matches(s: &[u8], ms: &Vec<TemplateMatch>, vals: &Vec<Option<Vec<u8>>>) -> (out:
    Vec<u8>)
    requires
        vals@.len() == ms@.len(),
        forall|i: int|
            0 <= i < ms@.len() ==> (#[trigger] ms@[i]).start <= ms@[i].end && ms@[i].end
                <= s@.len(),
        forall|i: int| 0 <= i < ms@.len() - 1 ==> (#[trigger] ms@[i]).end <= ms@[i + 1].start,
    ensures
        out@ == apply_matches(s@, tm_view(ms@), vals.deep_view(), 0),
{
    let ghost tms = tm_view(ms@);
    let ghost dvals = vals.deep_view();
    let mut out: Vec<u8> = Vec::new();
    let mut pos: usize = 0;
    let mut i: usize = 0;
    proof {
        assert(tms.skip(0) =~= tms);
        assert(dvals.skip(0) =~= dvals);
        assert(Seq::<u8>::empty() + apply_matches(s@, tms, dvals, 0) =~= apply_matches(
            s@,
            tms,
            dvals,
            0,
        ));
    }
    while i < ms.len()
        invariant
            tms == tm_view(ms@),
            dvals == vals.deep_view(),
            vals@.len() == ms@.len(),
            forall|k: int|
                0 <= k < ms@.len() ==> (#[trigger] ms@[k]).start <= ms@[k].end && ms@[k].end
                    <= s@.len(),
            forall|k: int| 0 <= k < ms@.len() - 1 ==> (#[trigger] ms@[k]).end <= ms@[k + 1].start,
            i <= ms@.len(),
            pos <= s@.len(),
            i < ms@.len() ==> pos <= ms@[i as int].start,
            apply_matches(s@, tms, dvals, 0) == out@ + apply_matches(
                s@,
                tms.skip(i as int),
                dvals.skip(i as int),
                pos as int,
            ),
        decreases ms@.len() - i,
    {
        let m = ms[i];
        let ghost pre = out@;
        crate::apply::push_bytes(&mut out, vstd::slice::slice_subrange(s, pos, m.start));
        let ghost mid: Seq<u8>;
        match &vals[i] {
            Option::Some(v) => {
                crate::apply::push_bytes(&mut out, v.as_slice());
                proof {
                    mid = v@;
                    assert(dvals[i as int] == Some(v@));
                }
            },
            Option::None => {
                crate::apply::push_bytes(&mut out, vstd::slice::slice_subrange(s, m.start, m.end));
                proof {
                    mid = s@.subrange(m.start as int, m.end as int);
                    assert(dvals[i as int] is None);
                }
            },
        }
        proof {
            let rest = tms.skip(i as int);
            let vrest = dvals.skip(i as int);
            assert(rest.first() == (m.start as int, m.end as int, m.name_start as int,
                m.name_end as int));
            assert(rest.drop_first() =~= tms.skip(i as int + 1));
            assert(vrest.first() == dvals[i as int]);
            assert(vrest.drop_first() =~= dvals.skip(i as int + 1));
            assert(out@ =~= pre + s@.subrange(pos as int, m.start as int) + mid);
            assert(apply_matches(s@, rest, vrest, pos as int) == s@.subrange(
                pos as int,
                m.start as int,
            ) + mid + apply_matches(s@, tms.skip(i as int + 1), dvals.skip(i as int + 1),
                m.end as int,
            ));
            assert(apply_matches(s@, tms, dvals, 0) == out@ + apply_matches(
                s@,
                tms.skip(i as int + 1),
                dvals.skip(i as int + 1),
                m.end as int,
            )) by {
                assert(pre + (s@.subrange(pos as int, m.start as int) + mid + apply_matches(
                    s@,
                    tms.skip(i as int + 1),
                    dvals.skip(i as int + 1),
                    m.end as int,
                )) =~= pre + s@.subrange(pos as int, m.start as int) + mid + apply_matches(
                    s@,
                    tms.skip(i as int + 1),
                    dvals.skip(i as int + 1),
                    m.end as int,
                ));
            }
        }
        pos = m.end;
        i = i + 1;
    }
    crate::apply::push_bytes(&mut out, vstd::slice::slice_subrange(s, pos, s.len()));
    proof {
        assert(tms.skip(i as int) =~= Seq::<(int, int, int, int)>::empty());
        assert(apply_matches(s@, tms.skip(i as int), dvals.skip(i as int), pos as int)
            == s@.subrange(pos as int, s@.len() as int));
    }
    out
}

/// Relies on core::str::from_utf8: it accepts exactly valid UTF-8 and hands
/// the same bytes back as a string slice.
#[verifier::external_body]
fn bytes_as_str(b: &[u8]) -> (r: Option<&str>)
    ensures
        r matches Some(s) ==> s.spec_bytes() == b@,
        r is Some <==> vstd::utf8::valid_utf8(b@),
{
    core::str::from_utf8(b).ok()
}

/// The character sequence that lossy UTF-8 decoding yields for a byte
/// sequence: a pure function of the bytes alone.
pub uninterp spec fn lossy_decode(b: Seq<u8>) -> Seq<char>;

/// Relies on String::from_utf8_lossy: its result is the function of the
/// bytes alone that `lossy_decode` names, and valid UTF-8 input comes back
/// unchanged.
#[verifier::external_body]
pub(crate) fn lossy_string(b: &[u8]) -> (r: String)
    ensures
        r@ == lossy_decode(b@),
        vstd::utf8::valid_utf8(b@) ==> vstd::utf8::encode_utf8(r@) == b@,
{
    String::from_utf8_lossy(b).into_owned()
}

/// The resolver, asked for the placeholder name written as the bytes `nb`,
/// answered `val`: either a replacement (as its UTF-8 bytes), or `None` for
/// "leave the placeholder as written".  A name that is not valid UTF-8 is
/// never asked and stays as written.
pub open spec fn resolver_answered<
    F: Fn(&str) -> Result<Option<String>, crate::operation::ExecError>,
>(resolver: F, nb: Seq<u8>, val: Option<Seq<u8>>) -> bool {
    if vstd::utf8::valid_utf8(nb) {
        exists|name: &str|
            #![trigger name.spec_bytes()]
            name.spec_bytes() == nb && (match val {
                Option::Some(v) => exists|rep: String|
                    call_ensures(resolver, (name,), Result::Ok(Some(rep)))
                        && vstd::utf8::encode_utf8(rep@) == v,
                Option::None => call_ensures(resolver, (name,), Result::Ok(None)),
            })
    } else {
        val is None
    }
}

/// Replaces placeholders of the forms `$name` and `${name}`, using a resolver
/// function.  The resolver is consulted for each placeholder's own name,
/// left to right: `Ok(Some(v))` substitutes `v` for the placeholder,
/// `Ok(None)` leaves it as written, and an error stops the whole
/// substitution, returning the error of the leftmost rejected placeholder.
pub fn template<F: Fn(&str) -> Result<Option<String>, crate::operation::ExecError>>(
    text: &str,
    resolver: F,
) -> (r: Result<String, crate::operation::ExecError>)
    requires
        forall|x: &str| #[trigger] call_requires(resolver, (x,)),
    ensures
        ({
            let s = text.spec_bytes();
            let tms = template_matches_from(s, 0);
            match r {
                Result::Ok(out) => exists|vals: Seq<Option<Seq<u8>>>|
                    #![trigger vals.len()]
                    {
                        &&& vals.len() == tms.len()
                        &&& (forall|i: int|
                            0 <= i < tms.len() ==> resolver_answered(
                                resolver,
                                s.subrange((#[trigger] tms[i]).2, tms[i].3),
                                vals[i],
                            ))
                        &&& out@ == lossy_decode(apply_matches(s, tms, vals, 0))
                        &&& (vstd::utf8::valid_utf8(apply_matches(s, tms, vals, 0))
                            ==> vstd::utf8::encode_utf8(out@) == apply_matches(s, tms, vals, 0))
                    },
                Result::Err(e) => exists|i: int, vals: Seq<Option<Seq<u8>>>|
                    #![trigger tms[i], vals.len()]
                    {
                        &&& 0 <= i < tms.len()
                        &&& (exists|name: &str|
                            #![trigger name.spec_bytes()]
                            name.spec_bytes() == s.subrange(tms[i].2, tms[i].3) && call_ensures(
                                resolver,
                                (name,),
                                Result::Err(e),
                            ))
                        &&& vals.len() == i
                        &&& (forall|j: int|
                            0 <= j < i ==> resolver_answered(
                                resolver,
                                s.subrange((#[trigger] tms[j]).2, tms[j].3),
                                vals[j],
                            ))
                    },
            }
        }),
{
    let bytes = text.as_bytes();
    let ms = scan_template(bytes);
    proof {
        lemma_template_matches_wf(bytes@, 0);
        assert forall|k: int| 0 <= k < ms@.len() implies (#[trigger] ms@[k]).start <= ms@[k].end
            && ms@[k].end <= bytes@.len() && ms@[k].start <= ms@[k].name_start
            && ms@[k].name_start <= ms@[k].name_end && ms@[k].name_end <= ms@[k].end by {
            assert(tm_view(ms@)[k] == (ms@[k].start as int, ms@[k].end as int,
                ms@[k].name_start as int, ms@[k].name_end as int));
        }
        assert forall|k: int| 0 <= k < ms@.len() - 1 implies (#[trigger] ms@[k]).end <= ms@[k
            + 1].start by {
            assert(tm_view(ms@)[k] == (ms@[k].start as int, ms@[k].end as int,
                ms@[k].name_start as int, ms@[k].name_end as int));
            assert(tm_view(ms@)[k + 1] == (ms@[k + 1].start as int, ms@[k + 1].end as int,
                ms@[k + 1].name_start as int, ms@[k + 1].name_end as int));
        }
    }
    let mut vals: Vec<Option<Vec<u8>>> = Vec::new();
    let mut i: usize = 0;
    while i < ms.len()
        invariant
            forall|x: &str| #[trigger] call_requires(resolver, (x,)),
            tm_view(ms@) == template_matches_from(bytes@, 0),
            bytes@ == text.spec_bytes(),
            forall|k: int|
                0 <= k < ms@.len() ==> (#[trigger] ms@[k]).start <= ms@[k].end && ms@[k].end
                    <= bytes@.len() && ms@[k].start <= ms@[k].name_start && ms@[k].name_start
                    <= ms@[k].name_end && ms@[k].name_end <= ms@[k].end,
            forall|k: int| 0 <= k < ms@.len() - 1 ==> (#[trigger] ms@[k]).end <= ms@[k + 1].start,
            i <= ms@.len(),
            vals@.len() == i,
            forall|k: int|
                0 <= k < i ==> resolver_answered(
                    resolver,
                    bytes@.subrange(
                        (#[trigger] ms@[k]).name_start as int,
                        ms@[k].name_end as int,
                    ),
                    vals.deep_view()[k],
                ),
        decreases ms@.len() - i,
    {
        let m = ms[i];
        let name_b = vstd::slice::slice_subrange(bytes, m.name_start, m.name_end);
        let ghost nb = bytes@.subrange(m.name_start as int, m.name_end as int);
        let mut v: Option<Vec<u8>> = None;
        match bytes_as_str(name_b) {
            Option::None => {
                proof {
                    assert(!vstd::utf8::valid_utf8(nb));
                    assert(resolver_answered(resolver, nb, None::<Seq<u8>>));
                }
            },
            Option::Some(name) => {
                match resolver(name) {
                    Result::Err(e) => {
                        proof {
                            let s = text.spec_bytes();
                            let tms = template_matches_from(s, 0);
                            let ii = i as int;
                            assert(tms[ii] == (m.start as int, m.end as int,
                                m.name_start as int, m.name_end as int));
                            assert(name.spec_bytes() == s.subrange(tms[ii].2, tms[ii].3));
                            let dv = vals.deep_view();
                            assert(dv.len() == ii);
                            assert forall|j: int| 0 <= j < ii implies resolver_answered(
                                resolver,
                                s.subrange((#[trigger] tms[j]).2, tms[j].3),
                                dv[j],
                            ) by {
                                assert(tms[j] == (ms@[j].start as int, ms@[j].end as int,
                                    ms@[j].name_start as int, ms@[j].name_end as int));
                            }
                        }
                        return Err(e);
                    },
                    Result::Ok(None) => {
                        proof {
                            assert(vstd::utf8::valid_utf8(nb));
                            assert(name.spec_bytes() == nb);
                            assert(call_ensures(resolver, (name,), Result::Ok(
                                None::<String>,
                            )));
                            assert(resolver_answered(resolver, nb, None::<Seq<u8>>));
                        }
                    },
                    Result::Ok(Some(rep)) => {
                        let rb = rep.as_str().as_bytes_vec();
                        proof {
                            assert(rb@ == vstd::utf8::encode_utf8(rep@));
                            assert(rb.deep_view() =~= rb@);
                        }
                        v = Some(rb);
                        proof {
                            assert(vstd::utf8::valid_utf8(nb));
                            assert(name.spec_bytes() == nb);
                            assert(call_ensures(resolver, (name,), Result::Ok(Some(rep))));
                            assert(resolver_answered(resolver, nb, Some(
                                vstd::utf8::encode_utf8(rep@),
                            )));
                        }
                    },
                }
            },
        }
        let ghost old_vals = vals.deep_view();
        vals.push(v);
        proof {
            assert(vals.deep_view() =~= old_vals.push(v.deep_view()));
            assert(resolver_answered(resolver, nb, v.deep_view()));
        }
        i = i + 1;
    }
    let out = apply_template_matches(bytes, &ms, &vals);
    let res = lossy_string(out.as_slice());
    proof {
        let s = text.spec_bytes();
        let tms = template_matches_from(s, 0);
        let dv = vals.deep_view();
        assert(dv.len() == vals@.len());
        assert(tm_view(ms@).len() == ms@.len());
        assert(dv.len() == tms.len());
        assert forall|k: int| 0 <= k < tms.len() implies resolver_answered(
            resolver,
            s.subrange((#[trigger] tms[k]).2, tms[k].3),
            dv[k],
        ) by {
            assert(tms[k] == (ms@[k].start as int, ms@[k].end as int,
                ms@[k].name_start as int, ms@[k].name_end as int));
        }
        assert(out@ == apply_matches(s, tms, dv, 0));
        assert(res@ == lossy_decode(apply_matches(s, tms, dv, 0)));
        assert(vstd::utf8::valid_utf8(apply_matches(s, tms, dv, 0))
            ==> vstd::utf8::encode_utf8(res@) == apply_matches(s, tms, dv, 0));
    }
    Ok(res)
}

/// Mark the given byte range of `text` with an underline for terminal
/// output.  The range must lie on character boundaries.  The bytes outside
/// the range stay as written; what stands in for the range itself is the
/// styled middle, whose exact form depends on the terminal configuration.
pub fn underline_span(text: &str, span: core::ops::Range<usize>) -> (r: String)
    requires
        span.start <= span.end && span.end <= text.spec_bytes().len(),
        vstd::utf8::is_char_boundary(text.spec_bytes(), span.start as int),
        vstd::utf8::is_char_boundary(text.spec_bytes(), span.end as int),
    ensures
        exists|mid: Seq<char>|
            #![trigger mid.len()]
            vstd::utf8::encode_utf8(r@) == text.spec_bytes().subrange(0, span.start as int)
                + vstd::utf8::encode_utf8(mid) + text.spec_bytes().subrange(
                span.end as int,
                text.spec_bytes().len() as int,
            ),
{
    style_underlined(text, span.start, span.end)
}

/// Relies on colored::Colorize::underline: the surrounding slices are
/// written as they stand, and the styled middle is some character sequence
/// (the selected slice, possibly wrapped in terminal escape sequences,
/// depending on the terminal configuration).
#[verifier::external_body]
fn style_underlined(text: &str, start: usize, end: usize) -> (r: String)
    requires
        start <= end && end <= text.spec_bytes().len(),
        vstd::utf8::is_char_boundary(text.spec_bytes(), start as int),
        vstd::utf8::is_char_boundary(text.spec_bytes(), end as int),
    ensures
        exists|mid: Seq<char>|
            #![trigger mid.len()]
            vstd::utf8::encode_utf8(r@) == text.spec_bytes().subrange(0, start as int)
                + vstd::utf8::encode_utf8(mid) + text.spec_bytes().subrange(
                end as int,
                text.spec_bytes().len() as int,
            ),
{
    format!(
        "{}{}{}",
        &text[..start],
        colored::Colorize::underline(&text[start..end]),
        &text[end..],
    )
}

} // verus!


use vstd::prelude::*;
use vstd::string::StringSliceAdditionalSpecFns;
use vstd::utf8::encode_utf8;
use crate::apply::{Change, Patch};
use crate::message::{
    eligible_sugs, help_spans_of, primary_of, raw_text_spec, sort_sugs, sugs_view, span_like,
    CompilerMessage, SpanText, SuggestionApplicability,
};
use crate::text::{
    apply_matches, apply_template_matches, matching_paren, scan_template, template_matches_from,
    lemma_template_matches_wf, tm_view, find_matching_paren_bytes, TemplateMatch,
};

verus! {

/// The error type of the regex crate, which `InvalidRegex` carries along.
#[verifier::external_type_specification]
#[verifier::external_body]
pub struct ExRegexError(regex::Error);

/// Relies on the Clone impl of regex::Error; nothing is claimed of the copy,
/// the error is only carried along for reporting.
pub assume_specification[ <regex::Error as Clone>::clone ](e: &regex::Error) -> regex::Error;

/// One text operation of the interpreter's program.
#[derive(Debug, Clone, Copy, PartialEq, Eq, Structural)]
pub enum TextOperation {
    /// Drop topmost stack element
    StackDrop,
    /// Duplicate topmost stack element
    StackDup,
    /// Push currently selected text to the stack
    StackPush,
    /// Apply regex to the entire text instead of just the highlighted span
    Whole,
    /// Original span highlighted in the compiler message
    Original,
    /// Require that only a single paren char is selected, and select the matching one
    MatchingParen,
    /// Select space between matching parens, including the parens themselves.
    /// If a single paren is selected, selects the area between it and the matching paren.
    /// Otherwise, expand the selection backwards until a paren is found and then select.
    Parens,
    /// Extend selection forwards
    Extend,
    /// Find first match in the whole span
    First,
    /// Match backwards from the selection, using match of this regex instead
    Previous,
    /// Match forwards from the selection, using match of this regex instead
    Next,
    /// Limit the current selection to zero width, keeping the same start point
    Zero,
    /// Select first match inside the current selection
    Narrow,
    /// Delete the current selection
    Delete,
    /// Replace the current selection with a string
    Replace,
    /// Substitute the first regex match in the current selection
    Substitute,
    /// Substitute all regex matches in the current selection
    SubstituteAll,
}

/// An error raised while running a program of text operations.
#[derive(Debug, Clone)]
pub enum ExecError {
    /// No such operation
    UnknownOp(String),
    /// Argument could not be parsed as a regex
    InvalidRegex(String, regex::Error),
    /// No regex or other matches by operation
    NoMatches(TextOperation),
    /// Not enough arguments available
    NotEnoughArguments(TextOperation, usize),
    /// Cannot pop from empty stack
    StackUnderflow(TextOperation),
}

impl ExecError {
    /// Do not attempt to continue to the next item after this: true for every
    /// error but a missing match, which abandons only the current span.
    pub fn stop_all(&self) -> (r: bool)
        ensures
            r == !(self matches ExecError::NoMatches(_)),
    {
        !matches!(self, Self::NoMatches(_))
    }
}

/// The operation a mnemonic token names, or `None` for an unknown token.
pub open spec fn op_for_token(t: Seq<char>) -> Option<TextOperation> {
    if t == "stack-drop"@ || t == "s-drop"@ {
        Some(TextOperation::StackDrop)
    } else if t == "stack-dup"@ || t == "s-dup"@ {
        Some(TextOperation::StackDup)
    } else if t == "stack-push"@ || t == "s-push"@ || t == "push"@ {
        Some(TextOperation::StackPush)
    } else if t == "whole"@ {
        Some(TextOperation::Whole)
    } else if t == "original"@ {
        Some(TextOperation::Original)
    } else if t == "matching-paren"@ || t == "mp"@ {
        Some(TextOperation::MatchingParen)
    } else if t == "parens"@ {
        Some(TextOperation::Parens)
    } else if t == "extend"@ || t == "e"@ {
        Some(TextOperation::Extend)
    } else if t == "first"@ || t == "f"@ {
        Some(TextOperation::First)
    } else if t == "previous"@ || t == "prev"@ || t == "p"@ {
        Some(TextOperation::Previous)
    } else if t == "next"@ || t == "n"@ {
        Some(TextOperation::Next)
    } else if t == "zero"@ {
        Some(TextOperation::Zero)
    } else if t == "narrow"@ || t == "inner"@ {
        Some(TextOperation::Narrow)
    } else if t == "delete"@ || t == "d"@ {
        Some(TextOperation::Delete)
    } else if t == "replace"@ {
        Some(TextOperation::Replace)
    } else if t == "substitute"@ || t == "sub"@ || t == "s"@ {
        Some(TextOperation::Substitute)
    } else if t == "substitute-all"@ || t == "sub-all"@ || t == "suba"@ || t == "sa"@ {
        Some(TextOperation::SubstituteAll)
    } else {
        None
    }
}

/// How many argument tokens each operation consumes.
pub open spec fn spec_arg_count(op: TextOperation) -> int {
    match op {
        TextOperation::Extend => 1,
        TextOperation::First => 1,
        TextOperation::Previous => 1,
        TextOperation::Next => 1,
        TextOperation::Narrow => 1,
        TextOperation::Replace => 1,
        TextOperation::Substitute => 2,
        TextOperation::SubstituteAll => 2,
        _ => 0,
    }
}

/// Whether two strings hold the same characters.
pub(crate) fn str_eq(a: &str, b: &str) -> (r: bool)
    ensures
        r == (a@ == b@),
{
    let x = a.to_owned();
    let y = b.to_owned();
    x == y
}

impl TextOperation {
    /// Resolve a mnemonic token, exactly as `op_for_token` states it.
    pub fn parse(tok: &str) -> (r: Option<TextOperation>)
        ensures
            r == op_for_token(tok@),
    {
        if str_eq(tok, "stack-drop") || str_eq(tok, "s-drop") {
            Some(TextOperation::StackDrop)
        } else if str_eq(tok, "stack-dup") || str_eq(tok, "s-dup") {
            Some(TextOperation::StackDup)
        } else if str_eq(tok, "stack-push") || str_eq(tok, "s-push") || str_eq(tok, "push") {
            Some(TextOperation::StackPush)
        } else if str_eq(tok, "whole") {
            Some(TextOperation::Whole)
        } else if str_eq(tok, "original") {
            Some(TextOperation::Original)
        } else if str_eq(tok, "matching-paren") || str_eq(tok, "mp") {
            Some(TextOperation::MatchingParen)
        } else if str_eq(tok, "parens") {
            Some(TextOperation::Parens)
        } else if str_eq(tok, "extend") || str_eq(tok, "e") {
            Some(TextOperation::Extend)
        } else if str_eq(tok, "first") || str_eq(tok, "f") {
            Some(TextOperation::First)
        } else if str_eq(tok, "previous") || str_eq(tok, "prev") || str_eq(tok, "p") {
            Some(TextOperation::Previous)
        } else if str_eq(tok, "next") || str_eq(tok, "n") {
            Some(TextOperation::Next)
        } else if str_eq(tok, "zero") {
            Some(TextOperation::Zero)
        } else if str_eq(tok, "narrow") || str_eq(tok, "inner") {
            Some(TextOperation::Narrow)
        } else if str_eq(tok, "delete") || str_eq(tok, "d") {
            Some(TextOperation::Delete)
        } else if str_eq(tok, "replace") {
            Some(TextOperation::Replace)
        } else if str_eq(tok, "substitute") || str_eq(tok, "sub") || str_eq(tok, "s") {
            Some(TextOperation::Substitute)
        } else if str_eq(tok, "substitute-all") || str_eq(tok, "sub-all") || str_eq(tok, "suba")
            || str_eq(tok, "sa") {
            Some(TextOperation::SubstituteAll)
        } else {
            None
        }
    }

    /// How many argument tokens this operation consumes, exactly as
    /// `spec_arg_count` states it.
    pub fn arg_count(&self) -> (n: usize)
        ensures
            n == spec_arg_count(*self),
    {
        match self {
            TextOperation::Extend => 1,
            TextOperation::First => 1,
            TextOperation::Previous => 1,
            TextOperation::Next => 1,
            TextOperation::Narrow => 1,
            TextOperation::Replace => 1,
            TextOperation::Substitute => 2,
            TextOperation::SubstituteAll => 2,
            _ => 0,
        }
    }
}

// ---------------------------------------------------------------------------
// Regular expressions, through the regex crate
// ---------------------------------------------------------------------------

/// The compiled byte-level regex type of the regex crate.
#[verifier::external_type_specification]
#[verifier::external_body]
pub struct ExBytesRegex(regex::bytes::Regex);

/// Whether the regex crate accepts this pattern text.
pub uninterp spec fn re_compiles(pat: Seq<char>) -> bool;

/// The first match of the pattern in the byte haystack at or after `start`,
/// as half-open byte offsets.
pub uninterp spec fn re_find_in(pat: Seq<char>, hay: Seq<u8>, start: int) -> Option<(int, int)>;

/// The last match of the pattern in the byte haystack.
pub uninterp spec fn re_find_last(pat: Seq<char>, hay: Seq<u8>) -> Option<(int, int)>;

/// The haystack with the first match of the pattern replaced by the
/// replacement (capture group references in it expanded); the haystack
/// unchanged when there is no match.
pub uninterp spec fn re_replace_first(pat: Seq<char>, hay: Seq<u8>, rep: Seq<u8>) -> Seq<u8>;

/// The haystack with every match of the pattern so replaced.
pub uninterp spec fn re_replace_all(pat: Seq<char>, hay: Seq<u8>, rep: Seq<u8>) -> Seq<u8>;

/// A compiled regex, paired with the pattern text it was compiled from.
pub struct Pattern {
    re: regex::bytes::Regex,
    pat: String,
}

impl Pattern {
    /// The pattern text this regex was compiled from.
    pub closed spec fn spec_pat(&self) -> Seq<char> {
        self.pat@
    }
}

/// Relies on regex::bytes::Regex::new: it accepts exactly the patterns that
/// `re_compiles` names (compilation is a pure function of the pattern text),
/// and the compiled regex is paired with its pattern text.
#[verifier::external_body]
fn pattern_new(pat: &str) -> (r: Result<Pattern, regex::Error>)
    ensures
        r is Ok <==> re_compiles(pat@),
        r matches Ok(p) ==> p.spec_pat() == pat@,
{
    match regex::bytes::Regex::new(pat) {
        Ok(re) => Ok(Pattern { re, pat: pat.to_owned() }),
        Err(e) => Err(e),
    }
}

/// Relies on regex::bytes::Regex::find_at, searching `hay[..end]` from
/// `start`: its result is the function of the pattern, the searched bytes
/// and the start that `re_find_in` names, and a match lies between `start`
/// and `end`.
#[verifier::external_body]
fn re_find_at(p: &Pattern, hay: &[u8], start: usize, end: usize) -> (r: Option<(usize, usize)>)
    requires
        start <= end <= hay@.len(),
    ensures
        ({
            let m = re_find_in(p.spec_pat(), hay@.subrange(0, end as int), start as int);
            match r {
                Option::Some((a, b)) => m == Some((a as int, b as int)) && start <= a && a <= b
                    && b <= end,
                Option::None => m is None,
            }
        }),
{
    p.re.find_at(&hay[..end], start).map(|m| (m.start(), m.end()))
}

/// Relies on regex::bytes::Regex::find_iter over `hay[..end]`, taking the
/// last of its non-overlapping matches: `re_find_last` names it.
#[verifier::external_body]
fn re_find_last_in(p: &Pattern, hay: &[u8], end: usize) -> (r: Option<(usize, usize)>)
    requires
        end <= hay@.len(),
    ensures
        ({
            let m = re_find_last(p.spec_pat(), hay@.subrange(0, end as int));
            match r {
                Option::Some((a, b)) => m == Some((a as int, b as int)) && a <= b && b <= end,
                Option::None => m is None,
            }
        }),
{
    p.re.find_iter(&hay[..end]).last().map(|m| (m.start(), m.end()))
}

/// Relies on regex::bytes::Regex::replace with a byte-slice replacement,
/// which expands capture group references: `re_replace_first` names its
/// result.
#[verifier::external_body]
fn re_replace_one(p: &Pattern, hay: &[u8], rep: &[u8]) -> (r: Vec<u8>)
    ensures
        r@ == re_replace_first(p.spec_pat(), hay@, rep@),
{
    p.re.replace(hay, rep).into_owned()
}

/// Relies on regex::bytes::Regex::replace_all with a byte-slice replacement:
/// `re_replace_all` names its result.
#[verifier::external_body]
fn re_replace_every(p: &Pattern, hay: &[u8], rep: &[u8]) -> (r: Vec<u8>)
    ensures
        r@ == re_replace_all(p.spec_pat(), hay@, rep@),
{
    p.re.replace_all(hay, rep).into_owned()
}

// ---------------------------------------------------------------------------
// Template resolution against the interpreter's stack
// ---------------------------------------------------------------------------

/// The name of the placeholder that peeks the stack.
pub open spec fn top_name() -> Seq<u8> {
    seq![116u8, 111u8, 112u8]
}

/// The name of the placeholder that pops the stack.
pub open spec fn pop_name() -> Seq<u8> {
    seq![112u8, 111u8, 112u8]
}

/// Resolve each placeholder name against the stack, left to right: `top`
/// peeks, `pop` pops, any other name stays unresolved.  Returns the resolved
/// values (`None` when the stack ran empty on a `top` or `pop`) and the
/// stack as the resolution left it.
pub open spec fn resolve_names(
    s: Seq<u8>,
    ms: Seq<(int, int, int, int)>,
    stack: Seq<Seq<u8>>,
) -> (Option<Seq<Option<Seq<u8>>>>, Seq<Seq<u8>>)
    decreases ms.len(),
{
    if ms.len() == 0 {
        (Some(Seq::empty()), stack)
    } else {
        let name = s.subrange(ms.first().2, ms.first().3);
        if name == top_name() {
            if stack.len() == 0 {
                (None, stack)
            } else {
                let rec = resolve_names(s, ms.drop_first(), stack);
                (
                    match rec.0 {
                        Option::Some(vs) => Some(seq![Some(stack.last())] + vs),
                        Option::None => None,
                    },
                    rec.1,
                )
            }
        } else if name == pop_name() {
            if stack.len() == 0 {
                (None, stack)
            } else {
                let rec = resolve_names(s, ms.drop_first(), stack.drop_last());
                (
                    match rec.0 {
                        Option::Some(vs) => Some(seq![Some(stack.last())] + vs),
                        Option::None => None,
                    },
                    rec.1,
                )
            }
        } else {
            let rec = resolve_names(s, ms.drop_first(), stack);
            (
                match rec.0 {
                    Option::Some(vs) => Some(seq![None] + vs),
                    Option::None => None,
                },
                rec.1,
            )
        }
    }
}

/// Whether a byte slice holds exactly the three given bytes.
fn is_bytes3(b: &[u8], c0: u8, c1: u8, c2: u8) -> (r: bool)
    ensures
        r == (b@ == seq![c0, c1, c2]),
{
    if b.len() == 3 && b[0] == c0 && b[1] == c1 && b[2] == c2 {
        proof {
            assert(b@ =~= seq![c0, c1, c2]);
        }
        true
    } else {
        proof {
            if b@.len() == 3 {
                assert(b@[0] == b@.index(0));
            }
            assert(b@ != seq![c0, c1, c2]) by {
                if b@ =~= seq![c0, c1, c2] {
                }
            }
        }
        false
    }
}

/// Expand the `top` and `pop` placeholders of a template against the stack,
/// exactly as `resolve_names` and `apply_matches` state it; `op` is the
/// operation on whose behalf the expansion runs, named by the underflow
/// error.
pub fn template_with_stack(s: &[u8], stack: &mut Vec<Vec<u8>>, op: TextOperation) -> (r: Result<
    Vec<u8>,
    ExecError,
>)
    ensures
        ({
            let tms = template_matches_from(s@, 0);
            let rr = resolve_names(s@, tms, old(stack).deep_view());
            match r {
                Result::Ok(out) => {
                    &&& rr.0 matches Some(vals)
                    &&& out@ == apply_matches(s@, tms, rr.0->Some_0, 0)
                    &&& final(stack).deep_view() == rr.1
                },
                Result::Err(e) => {
                    &&& rr.0 is None
                    &&& e == ExecError::StackUnderflow(op)
                    &&& final(stack).deep_view() == rr.1
                },
            }
        }),
{
    let ghost st0 = stack.deep_view();
    let ghost tms = template_matches_from(s@, 0);
    let ms = scan_template(s);
    proof {
        lemma_template_matches_wf(s@, 0);
        assert forall|k: int| 0 <= k < ms@.len() implies (#[trigger] ms@[k]).start <= ms@[k].end
            && ms@[k].end <= s@.len() && ms@[k].start <= ms@[k].name_start && ms@[k].name_start
            <= ms@[k].name_end && ms@[k].name_end <= ms@[k].end by {
            assert(tm_view(ms@)[k] == (ms@[k].start as int, ms@[k].end as int,
                ms@[k].name_start as int, ms@[k].name_end as int));
        }
        assert forall|k: int| 0 <= k < ms@.len() - 1 implies (#[trigger] ms@[k]).end <= ms@[k
            + 1].start by {
            assert(tm_view(ms@)[k] == (ms@[k].start as int, ms@[k].end as int,
                ms@[k].name_start as int, ms@[k].name_end as int));
            assert(tm_view(ms@)[k + 1] == (ms@[k + 1].start as int, ms@[k + 1].end as int,
                ms@[k + 1].name_start as int, ms@[k + 1].name_end as int));
        }
    }
    let mut vals: Vec<Option<Vec<u8>>> = Vec::new();
    let mut i: usize = 0;
    proof {
        assert(tms.skip(0) =~= tms);
    }
    while i < ms.len()
        invariant
            st0 == old(stack).deep_view(),
            tms == template_matches_from(s@, 0),
            tm_view(ms@) == tms,
            forall|k: int|
                0 <= k < ms@.len() ==> (#[trigger] ms@[k]).start <= ms@[k].end && ms@[k].end
                    <= s@.len() && ms@[k].start <= ms@[k].name_start && ms@[k].name_start
                    <= ms@[k].name_end && ms@[k].name_end <= ms@[k].end,
            forall|k: int| 0 <= k < ms@.len() - 1 ==> (#[trigger] ms@[k]).end <= ms@[k + 1].start,
            i <= ms@.len(),
            vals@.len() == i,
            ({
                let rec = resolve_names(s@, tms.skip(i as int), stack.deep_view());
                resolve_names(s@, tms, st0) == (
                    match rec.0 {
                        Option::Some(vs) => Some(vals.deep_view() + vs),
                        Option::None => None::<Seq<Option<Seq<u8>>>>,
                    },
                    rec.1,
                )
            }),
        decreases ms@.len() - i,
    {
        let m = ms[i];
        let ghost rest = tms.skip(i as int);
        proof {
            assert(rest.first() == tms[i as int]);
            assert(tms[i as int] == (m.start as int, m.end as int, m.name_start as int,
                m.name_end as int));
            assert(rest.drop_first() =~= tms.skip(i as int + 1));
        }
        let name_b = vstd::slice::slice_subrange(s, m.name_start, m.name_end);
        let ghost old_vals = vals.deep_view();
        let ghost old_stack = stack.deep_view();
        if is_bytes3(name_b, 116, 111, 112) {
            // $top: peek
            if stack.len() == 0 {
                proof {
                    assert(resolve_names(s@, rest, old_stack) == (
                        None::<Seq<Option<Seq<u8>>>>,
                        old_stack,
                    ));
                }
                return Err(ExecError::StackUnderflow(op));
            }
            let v = stack[stack.len() - 1].clone();
            proof {
                assert(v@ =~= old_stack.last());
            }
            vals.push(Some(v));
            proof {
                assert(vals.deep_view() =~= old_vals.push(Some(old_stack.last())));
                let rec2 = resolve_names(s@, tms.skip(i as int + 1), stack.deep_view());
                assert(resolve_names(s@, rest, old_stack) == (
                    match rec2.0 {
                        Option::Some(vs) => Some(seq![Some(old_stack.last())] + vs),
                        Option::None => None::<Seq<Option<Seq<u8>>>>,
                    },
                    rec2.1,
                ));
                if rec2.0 is Some {
                    assert(old_vals + (seq![Some(old_stack.last())] + rec2.0->Some_0)
                        =~= vals.deep_view() + rec2.0->Some_0);
                }
            }
        } else if is_bytes3(name_b, 112, 111, 112) {
            // $pop
            if stack.len() == 0 {
                proof {
                    assert(resolve_names(s@, rest, old_stack) == (
                        None::<Seq<Option<Seq<u8>>>>,
                        old_stack,
                    ));
                }
                return Err(ExecError::StackUnderflow(op));
            }
            let popped = stack.pop();
            let v = match popped {
                Option::Some(v) => v,
                Option::None => Vec::new(),
            };
            proof {
                assert(stack.deep_view() =~= old_stack.drop_last());
                assert(v@ == old_stack.last());
            }
            vals.push(Some(v));
            proof {
                assert(vals.deep_view() =~= old_vals.push(Some(old_stack.last())));
                let rec2 = resolve_names(s@, tms.skip(i as int + 1), stack.deep_view());
                assert(resolve_names(s@, rest, old_stack) == (
                    match rec2.0 {
                        Option::Some(vs) => Some(seq![Some(old_stack.last())] + vs),
                        Option::None => None::<Seq<Option<Seq<u8>>>>,
                    },
                    rec2.1,
                ));
                if rec2.0 is Some {
                    assert(old_vals + (seq![Some(old_stack.last())] + rec2.0->Some_0)
                        =~= vals.deep_view() + rec2.0->Some_0);
                }
            }
        } else {
            vals.push(None);
            proof {
                assert(vals.deep_view() =~= old_vals.push(None));
                let rec2 = resolve_names(s@, tms.skip(i as int + 1), stack.deep_view());
                assert(resolve_names(s@, rest, old_stack) == (
                    match rec2.0 {
                        Option::Some(vs) => Some(seq![None::<Seq<u8>>] + vs),
                        Option::None => None::<Seq<Option<Seq<u8>>>>,
                    },
                    rec2.1,
                ));
                if rec2.0 is Some {
                    assert(old_vals + (seq![None::<Seq<u8>>] + rec2.0->Some_0)
                        =~= vals.deep_view() + rec2.0->Some_0);
                }
            }
        }
        i = i + 1;
    }
    proof {
        assert(tms.skip(i as int) =~= Seq::<(int, int, int, int)>::empty());
        assert(resolve_names(s@, tms.skip(i as int), stack.deep_view()) == (
            Some(Seq::<Option<Seq<u8>>>::empty()),
            stack.deep_view(),
        ));
        assert(vals.deep_view() + Seq::<Option<Seq<u8>>>::empty() =~= vals.deep_view());
        assert(vals@.len() == ms@.len());
        assert(vals.deep_view().len() == vals@.len());
        assert(tm_view(ms@).len() == ms@.len());
    }
    let out = apply_template_matches(s, &ms, &vals);
    Ok(out)
}

// ---------------------------------------------------------------------------
// The interpreter's step semantics
// ---------------------------------------------------------------------------

/// The buffer with the byte range `a..b` replaced by `v`.
pub open spec fn splice_spec(h: Seq<u8>, a: int, b: int, v: Seq<u8>) -> Seq<u8> {
    h.subrange(0, a) + v + h.subrange(b, h.len() as int)
}

/// The selection chosen by the `parens` operation: walk the selection start
/// backward until a byte with a bracket match is found, then select from the
/// bracket to its match, both included.
pub open spec fn parens_sel(h: Seq<u8>, start: int) -> Option<(int, int)>
    decreases start,
{
    if 0 <= start < h.len() && matching_paren(h, start) is Some {
        let mp = matching_paren(h, start)->Some_0;
        if mp < start {
            Some((mp, start + 1))
        } else {
            Some((start, mp + 1))
        }
    } else if start <= 0 {
        None
    } else {
        parens_sel(h, start - 1)
    }
}

/// How one step of the interpreter fails, and the stack as the failure left
/// it.  The buffer is never changed by a failing step.
pub enum StepFail {
    /// The argument is not an acceptable regex pattern (the pattern text is
    /// carried along).
    BadRegex(Seq<char>),
    /// A search or select operation found nothing.
    NoMatch,
    /// `top` or `pop` was resolved against an empty stack.
    Underflow,
}

/// The outcome of one interpreter step: the new stack, buffer and selection,
/// or a failure with the stack as it was left.
pub enum StepResult {
    Next(Seq<Seq<u8>>, Seq<u8>, (int, int)),
    Fail(StepFail, Seq<Seq<u8>>),
}

/// The result of resolving the placeholders of an argument token against the
/// stack: the expanded bytes (`None` on underflow) and the remaining stack.
pub open spec fn template_outcome(tok: Seq<char>, stack: Seq<Seq<u8>>) -> (
    Option<Seq<u8>>,
    Seq<Seq<u8>>,
) {
    let tb = encode_utf8(tok);
    let rn = resolve_names(tb, template_matches_from(tb, 0), stack);
    (
        match rn.0 {
            Option::Some(vals) => Some(apply_matches(tb, template_matches_from(tb, 0), vals, 0)),
            Option::None => None,
        },
        rn.1,
    )
}

/// One step of the interpreter: what each operation does to the stack, the
/// buffer and the selection, exactly as the operation table states it.
pub open spec fn step_op(
    op: TextOperation,
    args: Seq<Seq<char>>,
    stack: Seq<Seq<u8>>,
    hay: Seq<u8>,
    sel: (int, int),
    orig: (int, int),
) -> StepResult {
    match op {
        TextOperation::StackDrop => if stack.len() == 0 {
            StepResult::Fail(StepFail::Underflow, stack)
        } else {
            StepResult::Next(stack.drop_last(), hay, sel)
        },
        TextOperation::StackDup => if stack.len() == 0 {
            StepResult::Fail(StepFail::Underflow, stack)
        } else {
            StepResult::Next(stack.push(stack.last()), hay, sel)
        },
        TextOperation::StackPush => StepResult::Next(
            stack.push(hay.subrange(sel.0, sel.1)),
            hay,
            sel,
        ),
        TextOperation::Whole => StepResult::Next(stack, hay, (0, hay.len() as int)),
        TextOperation::Original => StepResult::Next(stack, hay, orig),
        TextOperation::MatchingParen => if sel.1 - sel.0 != 1 {
            StepResult::Fail(StepFail::NoMatch, stack)
        } else {
            match matching_paren(hay, sel.0) {
                Option::Some(m) => StepResult::Next(stack, hay, (m, m + 1)),
                Option::None => StepResult::Fail(StepFail::NoMatch, stack),
            }
        },
        TextOperation::Parens => match parens_sel(hay, sel.0) {
            Option::Some(s2) => StepResult::Next(stack, hay, s2),
            Option::None => StepResult::Fail(StepFail::NoMatch, stack),
        },
        TextOperation::Extend => if !re_compiles(args[0]) {
            StepResult::Fail(StepFail::BadRegex(args[0]), stack)
        } else {
            match re_find_in(args[0], hay, sel.1) {
                Option::Some((a, b)) => if a == sel.1 {
                    StepResult::Next(stack, hay, (sel.0, b))
                } else {
                    StepResult::Next(stack, hay, sel)
                },
                Option::None => StepResult::Fail(StepFail::NoMatch, stack),
            }
        },
        TextOperation::First => if !re_compiles(args[0]) {
            StepResult::Fail(StepFail::BadRegex(args[0]), stack)
        } else {
            match re_find_in(args[0], hay, 0) {
                Option::Some(m) => StepResult::Next(stack, hay, m),
                Option::None => StepResult::Fail(StepFail::NoMatch, stack),
            }
        },
        TextOperation::Previous => if !re_compiles(args[0]) {
            StepResult::Fail(StepFail::BadRegex(args[0]), stack)
        } else {
            match re_find_last(args[0], hay.subrange(0, sel.0)) {
                Option::Some(m) => StepResult::Next(stack, hay, m),
                Option::None => StepResult::Fail(StepFail::NoMatch, stack),
            }
        },
        TextOperation::Next => if !re_compiles(args[0]) {
            StepResult::Fail(StepFail::BadRegex(args[0]), stack)
        } else {
            match re_find_in(args[0], hay, sel.1) {
                Option::Some(m) => StepResult::Next(stack, hay, m),
                Option::None => StepResult::Fail(StepFail::NoMatch, stack),
            }
        },
        TextOperation::Narrow => if !re_compiles(args[0]) {
            StepResult::Fail(StepFail::BadRegex(args[0]), stack)
        } else {
            match re_find_in(args[0], hay.subrange(0, sel.1), sel.0) {
                Option::Some(m) => StepResult::Next(stack, hay, m),
                Option::None => StepResult::Fail(StepFail::NoMatch, stack),
            }
        },
        TextOperation::Zero => StepResult::Next(stack, hay, (sel.0, sel.0)),
        TextOperation::Delete => StepResult::Next(
            stack,
            splice_spec(hay, sel.0, sel.1, Seq::empty()),
            (sel.0, sel.0),
        ),
        TextOperation::Replace => {
            let to = template_outcome(args[0], stack);
            match to.0 {
                Option::None => StepResult::Fail(StepFail::Underflow, to.1),
                Option::Some(v) => StepResult::Next(
                    to.1,
                    splice_spec(hay, sel.0, sel.1, v),
                    (sel.0, sel.0 + v.len()),
                ),
            }
        },
        TextOperation::Substitute => if !re_compiles(args[0]) {
            StepResult::Fail(StepFail::BadRegex(args[0]), stack)
        } else {
            let to = template_outcome(args[1], stack);
            match to.0 {
                Option::None => StepResult::Fail(StepFail::Underflow, to.1),
                Option::Some(v) => {
                    let rep = re_replace_first(args[0], hay.subrange(sel.0, sel.1), v);
                    StepResult::Next(
                        to.1,
                        splice_spec(hay, sel.0, sel.1, rep),
                        (sel.0, sel.0 + rep.len()),
                    )
                },
            }
        },
        TextOperation::SubstituteAll => if !re_compiles(args[0]) {
            StepResult::Fail(StepFail::BadRegex(args[0]), stack)
        } else {
            let to = template_outcome(args[1], stack);
            match to.0 {
                Option::None => StepResult::Fail(StepFail::Underflow, to.1),
                Option::Some(v) => {
                    let rep = re_replace_all(args[0], hay.subrange(sel.0, sel.1), v);
                    StepResult::Next(
                        to.1,
                        splice_spec(hay, sel.0, sel.1, rep),
                        (sel.0, sel.0 + rep.len()),
                    )
                },
            }
        },
    }
}

/// Whether the exec error `e` reports the spec-level failure `k` of
/// operation `op`.
pub open spec fn err_matches(op: TextOperation, k: StepFail, e: ExecError) -> bool {
    match k {
        StepFail::BadRegex(t) => e matches ExecError::InvalidRegex(ts, _) && ts@ == t,
        StepFail::NoMatch => e == ExecError::NoMatches(op),
        StepFail::Underflow => e == ExecError::StackUnderflow(op),
    }
}

/// Replace the byte range `start..end` of `h` with `v`.
fn splice_bytes(h: &Vec<u8>, start: usize, end: usize, v: &[u8]) -> (r: Vec<u8>)
    requires
        start <= end && end <= h@.len(),
    ensures
        r@ == splice_spec(h@, start as int, end as int, v@),
        r@.len() == h@.len() - (end - start) + v@.len(),
{
    let mut r: Vec<u8> = Vec::new();
    crate::apply::push_bytes(&mut r, vstd::slice::slice_subrange(h.as_slice(), 0, start));
    crate::apply::push_bytes(&mut r, v);
    crate::apply::push_bytes(&mut r, vstd::slice::slice_subrange(h.as_slice(), end, h.len()));
    proof {
        assert(r@ =~= splice_spec(h@, start as int, end as int, v@));
    }
    r
}

impl TextOperation {
    /// Run one operation against the stack, the buffer and the selection,
    /// returning the new selection; the outcome is exactly what `step_op`
    /// states for it.
    #[allow(unused_variables)]
    pub fn apply(
        &self,
        stack: &mut Vec<Vec<u8>>,
        haystack: &mut Vec<u8>,
        original_span: core::ops::Range<usize>,
        span: core::ops::Range<usize>,
        args: &Vec<String>,
    ) -> (r: Result<core::ops::Range<usize>, ExecError>)
        requires
            span.start <= span.end && span.end <= old(haystack)@.len(),
            args@.len() == spec_arg_count(*self),
        ensures
            ({
                let sel = (span.start as int, span.end as int);
                let orig = (original_span.start as int, original_span.end as int);
                match step_op(
                    *self,
                    args.deep_view(),
                    old(stack).deep_view(),
                    old(haystack)@,
                    sel,
                    orig,
                ) {
                    StepResult::Next(st2, hay2, sel2) => {
                        &&& r matches Ok(sp) && sp.start == sel2.0 && sp.end == sel2.1
                        &&& final(stack).deep_view() == st2
                        &&& final(haystack)@ == hay2
                    },
                    StepResult::Fail(k, st2) => {
                        &&& r matches Err(e) && err_matches(*self, k, e)
                        &&& final(stack).deep_view() == st2
                        &&& final(haystack)@ == old(haystack)@
                    },
                }
            }),
    {
        let ghost st0 = stack.deep_view();
        let ghost h0 = haystack@;
        let ghost dargs = args.deep_view();
        match self {
            TextOperation::StackDrop => {
                if stack.len() == 0 {
                    return Err(ExecError::StackUnderflow(*self));
                }
                stack.pop();
                proof {
                    assert(stack.deep_view() =~= st0.drop_last());
                }
                Ok(span)
            },
            TextOperation::StackDup => {
                if stack.len() == 0 {
                    return Err(ExecError::StackUnderflow(*self));
                }
                let v = stack[stack.len() - 1].clone();
                proof {
                    assert(v@ =~= st0.last());
                }
                stack.push(v);
                proof {
                    assert(stack.deep_view() =~= st0.push(st0.last()));
                }
                Ok(span)
            },
            TextOperation::StackPush => {
                let mut v: Vec<u8> = Vec::new();
                crate::apply::push_bytes(
                    &mut v,
                    vstd::slice::slice_subrange(haystack.as_slice(), span.start, span.end),
                );
                proof {
                    assert(v@ =~= h0.subrange(span.start as int, span.end as int));
                }
                stack.push(v);
                proof {
                    assert(stack.deep_view() =~~= st0.push(
                        h0.subrange(span.start as int, span.end as int),
                    ));
                }
                Ok(span)
            },
            TextOperation::Whole => Ok(0..haystack.len()),
            TextOperation::Original => Ok(original_span),
            TextOperation::MatchingParen => {
                if span.end - span.start != 1 {
                    return Err(ExecError::NoMatches(*self));
                }
                let hl = haystack.len();
                match find_matching_paren_bytes(haystack.as_slice(), span.start) {
                    Option::Some(mp) => {
                        proof {
                            assert(mp < hl);
                        }
                        Ok(mp..mp + 1)
                    },
                    Option::None => Err(ExecError::NoMatches(*self)),
                }
            },
            TextOperation::Parens => {
                let mut start = span.start;
                loop
                    invariant
                        *self == TextOperation::Parens,
                        h0 == old(haystack)@,
                        st0 == old(stack).deep_view(),
                        start <= span.start,
                        span.start <= haystack@.len(),
                        haystack@ == h0,
                        stack.deep_view() == st0,
                        parens_sel(h0, span.start as int) == parens_sel(h0, start as int),
                    decreases start,
                {
                    if start < haystack.len() {
                        match find_matching_paren_bytes(haystack.as_slice(), start) {
                            Option::Some(mp) => {
                                if mp < start {
                                    return Ok(mp..start + 1);
                                } else {
                                    return Ok(start..mp + 1);
                                }
                            },
                            Option::None => {},
                        }
                    }
                    if start == 0 {
                        return Err(ExecError::NoMatches(*self));
                    }
                    start = start - 1;
                }
            },
            TextOperation::Extend => {
                let p = match compile_arg(&args[0]) {
                    Result::Ok(p) => p,
                    Result::Err(e) => {
                        return Err(e);
                    },
                };
                proof {
                    assert(haystack@.subrange(0, haystack@.len() as int) =~= haystack@);
                }
                match re_find_at(&p, haystack.as_slice(), span.end, haystack.len()) {
                    Option::Some((a, b)) => {
                        if a == span.end {
                            Ok(span.start..b)
                        } else {
                            Ok(span)
                        }
                    },
                    Option::None => Err(ExecError::NoMatches(*self)),
                }
            },
            TextOperation::First => {
                let p = match compile_arg(&args[0]) {
                    Result::Ok(p) => p,
                    Result::Err(e) => {
                        return Err(e);
                    },
                };
                proof {
                    assert(haystack@.subrange(0, haystack@.len() as int) =~= haystack@);
                }
                match re_find_at(&p, haystack.as_slice(), 0, haystack.len()) {
                    Option::Some((a, b)) => Ok(a..b),
                    Option::None => Err(ExecError::NoMatches(*self)),
                }
            },
            TextOperation::Previous => {
                let p = match compile_arg(&args[0]) {
                    Result::Ok(p) => p,
                    Result::Err(e) => {
                        return Err(e);
                    },
                };
                match re_find_last_in(&p, haystack.as_slice(), span.start) {
                    Option::Some((a, b)) => Ok(a..b),
                    Option::None => Err(ExecError::NoMatches(*self)),
                }
            },
            TextOperation::Next => {
                let p = match compile_arg(&args[0]) {
                    Result::Ok(p) => p,
                    Result::Err(e) => {
                        return Err(e);
                    },
                };
                proof {
                    assert(haystack@.subrange(0, haystack@.len() as int) =~= haystack@);
                }
                match re_find_at(&p, haystack.as_slice(), span.end, haystack.len()) {
                    Option::Some((a, b)) => Ok(a..b),
                    Option::None => Err(ExecError::NoMatches(*self)),
                }
            },
            TextOperation::Narrow => {
                let p = match compile_arg(&args[0]) {
                    Result::Ok(p) => p,
                    Result::Err(e) => {
                        return Err(e);
                    },
                };
                match re_find_at(&p, haystack.as_slice(), span.start, span.end) {
                    Option::Some((a, b)) => Ok(a..b),
                    Option::None => Err(ExecError::NoMatches(*self)),
                }
            },
            TextOperation::Zero => Ok(span.start..span.start),
            TextOperation::Delete => {
                let empty: Vec<u8> = Vec::new();
                let r = splice_bytes(haystack, span.start, span.end, empty.as_slice());
                proof {
                    assert(empty@ =~= Seq::<u8>::empty());
                    assert(splice_spec(h0, span.start as int, span.end as int, empty@)
                        =~= splice_spec(h0, span.start as int, span.end as int, Seq::empty()));
                }
                *haystack = r;
                Ok(span.start..span.start)
            },
            TextOperation::Replace => {
                let a0 = args[0].as_str();
                let value = match template_with_stack(a0.as_bytes(), stack, *self) {
                    Result::Ok(v) => v,
                    Result::Err(e) => {
                        return Err(e);
                    },
                };
                proof {
                    assert(a0.spec_bytes() == encode_utf8(dargs[0]));
                }
                let r = splice_bytes(haystack, span.start, span.end, value.as_slice());
                let tail = haystack.len() - span.end;
                let new_end = r.len() - tail;
                proof {
                    assert(new_end == span.start + value@.len());
                }
                *haystack = r;
                Ok(span.start..new_end)
            },
            TextOperation::Substitute => {
                let p = match compile_arg(&args[0]) {
                    Result::Ok(p) => p,
                    Result::Err(e) => {
                        return Err(e);
                    },
                };
                let a1 = args[1].as_str();
                let value = match template_with_stack(a1.as_bytes(), stack, *self) {
                    Result::Ok(v) => v,
                    Result::Err(e) => {
                        return Err(e);
                    },
                };
                proof {
                    assert(a1.spec_bytes() == encode_utf8(dargs[1]));
                }
                let sub = vstd::slice::slice_subrange(haystack.as_slice(), span.start, span.end);
                let replaced = re_replace_one(&p, sub, value.as_slice());
                let r = splice_bytes(haystack, span.start, span.end, replaced.as_slice());
                let tail = haystack.len() - span.end;
                let new_end = r.len() - tail;
                proof {
                    assert(new_end == span.start + replaced@.len());
                }
                *haystack = r;
                Ok(span.start..new_end)
            },
            TextOperation::SubstituteAll => {
                let p = match compile_arg(&args[0]) {
                    Result::Ok(p) => p,
                    Result::Err(e) => {
                        return Err(e);
                    },
                };
                let a1 = args[1].as_str();
                let value = match template_with_stack(a1.as_bytes(), stack, *self) {
                    Result::Ok(v) => v,
                    Result::Err(e) => {
                        return Err(e);
                    },
                };
                proof {
                    assert(a1.spec_bytes() == encode_utf8(dargs[1]));
                }
                let sub = vstd::slice::slice_subrange(haystack.as_slice(), span.start, span.end);
                let replaced = re_replace_every(&p, sub, value.as_slice());
                let r = splice_bytes(haystack, span.start, span.end, replaced.as_slice());
                let tail = haystack.len() - span.end;
                let new_end = r.len() - tail;
                proof {
                    assert(new_end == span.start + replaced@.len());
                }
                *haystack = r;
                Ok(span.start..new_end)
            },
        }
    }
}

/// Compile an argument token as a regex, wrapping a rejected pattern in the
/// interpreter's error.
fn compile_arg(arg: &String) -> (r: Result<Pattern, ExecError>)
    ensures
        r is Ok <==> re_compiles(arg@),
        r matches Ok(p) ==> p.spec_pat() == arg@,
        r matches Err(e) ==> e matches ExecError::InvalidRegex(t, _) && t@ == arg@,
{
    match pattern_new(arg.as_str()) {
        Result::Ok(p) => Ok(p),
        Result::Err(err) => Err(ExecError::InvalidRegex(arg.clone(), err)),
    }
}

// ---------------------------------------------------------------------------
// Running a whole program of operations
// ---------------------------------------------------------------------------

/// How running a program fails: an unknown mnemonic, missing trailing
/// argument tokens, or a failing step.
pub enum RunFail {
    Unknown(Seq<char>),
    NotEnough(TextOperation, int),
    Step(TextOperation, StepFail),
}

/// Clip a selection into the buffer: order its ends and cut both at the
/// buffer length.
pub open spec fn normalize_sel(sel: (int, int), n: int) -> (int, int) {
    let a = if sel.0 <= n {
        sel.0
    } else {
        n
    };
    let b0 = if sel.0 <= sel.1 {
        sel.1
    } else {
        sel.0
    };
    let b = if b0 <= n {
        b0
    } else {
        n
    };
    (a, b)
}

/// Run a token program over the machine state: each mnemonic consumes its
/// fixed count of following tokens as arguments, the selection is clipped
/// into the buffer before every step, and the final buffer is the result.
pub open spec fn run_spec(
    toks: Seq<Seq<char>>,
    stack: Seq<Seq<u8>>,
    hay: Seq<u8>,
    sel: (int, int),
    orig: (int, int),
) -> Result<Seq<u8>, RunFail>
    decreases toks.len(),
{
    if toks.len() == 0 {
        Ok(hay)
    } else {
        match op_for_token(toks.first()) {
            Option::None => Err(RunFail::Unknown(toks.first())),
            Option::Some(op) => {
                let n = spec_arg_count(op);
                if toks.len() - 1 < n {
                    Err(RunFail::NotEnough(op, toks.len() - 1))
                } else {
                    let args = toks.subrange(1, 1 + n);
                    let sel1 = normalize_sel(sel, hay.len() as int);
                    match step_op(op, args, stack, hay, sel1, orig) {
                        StepResult::Next(st2, hay2, sel2) => run_spec(
                            toks.skip(1 + n),
                            st2,
                            hay2,
                            sel2,
                            orig,
                        ),
                        StepResult::Fail(k, st2) => Err(RunFail::Step(op, k)),
                    }
                }
            },
        }
    }
}

/// Whether the exec error `e` reports the spec-level run failure `f`.
pub open spec fn fail_matches(f: RunFail, e: ExecError) -> bool {
    match f {
        RunFail::Unknown(t) => e matches ExecError::UnknownOp(ts) && ts@ == t,
        RunFail::NotEnough(op, have) => e matches ExecError::NotEnoughArguments(op2, h) && op2
            == op && h == have,
        RunFail::Step(op, k) => err_matches(op, k, e),
    }
}

/// The buffer where a run of the program stops: the final buffer on
/// success, and on any failure the buffer as the successful prefix of the
/// program left it (a failing step never changes the buffer, and nothing is
/// rolled back).
pub open spec fn run_buffer(
    toks: Seq<Seq<char>>,
    stack: Seq<Seq<u8>>,
    hay: Seq<u8>,
    sel: (int, int),
    orig: (int, int),
) -> Seq<u8>
    decreases toks.len(),
{
    if toks.len() == 0 {
        hay
    } else {
        match op_for_token(toks.first()) {
            Option::None => hay,
            Option::Some(op) => {
                let n = spec_arg_count(op);
                if toks.len() - 1 < n {
                    hay
                } else {
                    let args = toks.subrange(1, 1 + n);
                    let sel1 = normalize_sel(sel, hay.len() as int);
                    match step_op(op, args, stack, hay, sel1, orig) {
                        StepResult::Next(st2, hay2, sel2) => run_buffer(
                            toks.skip(1 + n),
                            st2,
                            hay2,
                            sel2,
                            orig,
                        ),
                        StepResult::Fail(k, st2) => hay,
                    }
                }
            },
        }
    }
}

/// A program of text operations, with the switch that folds official
/// suggestions in before the program runs.
pub struct Operation {
    /// Apply the suggestion provided by the diagnostic first
    suggestion: bool,
    /// Sequence of operations to apply
    ops: Vec<String>,
}

impl Operation {
    /// Whether official suggestions are folded in first.
    pub closed spec fn spec_suggestion(&self) -> bool {
        self.suggestion
    }

    /// The program's tokens.
    pub closed spec fn spec_ops(&self) -> Seq<Seq<char>> {
        self.ops.deep_view()
    }

    /// Build an operation from the suggestion switch and the token program.
    pub fn new(suggestion: bool, ops: Vec<String>) -> (r: Operation)
        ensures
            r.spec_suggestion() == suggestion,
            r.spec_ops() == ops.deep_view(),
    {
        Operation { suggestion, ops }
    }

    /// Whether official suggestions are folded in first.
    pub fn suggestion(&self) -> (r: bool)
        ensures
            r == self.spec_suggestion(),
    {
        self.suggestion
    }

    /// Run the operation sequence, mutating the given buffer, with the
    /// selection initialized to `span`; the outcome is exactly what
    /// `run_spec` states for the program.  Whether the run succeeds or
    /// fails, the buffer holds every mutation the successful prefix of the
    /// program made, as `run_buffer` states it: a failure rolls nothing
    /// back.
    pub fn run(&self, haystack: &mut Vec<u8>, span: core::ops::Range<usize>) -> (r: Result<
        (),
        ExecError,
    >)
        requires
            span.start <= span.end && span.end <= old(haystack)@.len(),
        ensures
            ({
                let sel = (span.start as int, span.end as int);
                match r {
                    Result::Ok(u) => run_spec(self.spec_ops(), Seq::empty(), old(haystack)@, sel, sel)
                        == Ok::<Seq<u8>, RunFail>(final(haystack)@),
                    Result::Err(e) => run_spec(self.spec_ops(), Seq::empty(), old(haystack)@, sel, sel)
                        matches Err(f) && fail_matches(f, e),
                }
            }),
            final(haystack)@ == run_buffer(
                self.spec_ops(),
                Seq::empty(),
                old(haystack)@,
                (span.start as int, span.end as int),
                (span.start as int, span.end as int),
            ),
    {
        let ghost toks = self.ops.deep_view();
        let ghost h0 = haystack@;
        let ghost sel0 = (span.start as int, span.end as int);
        let orig_s = span.start;
        let orig_e = span.end;
        let mut stack: Vec<Vec<u8>> = Vec::new();
        let mut cur_s = span.start;
        let mut cur_e = span.end;
        let mut idx: usize = 0;
        proof {
            assert(toks.skip(0) =~= toks);
            assert(stack.deep_view() =~= Seq::<Seq<u8>>::empty());
        }
        while idx < self.ops.len()
            invariant
                toks == self.ops.deep_view(),
                h0 == old(haystack)@,
                sel0 == (span.start as int, span.end as int),
                orig_s == span.start && orig_e == span.end,
                idx <= toks.len(),
                toks.len() == self.ops@.len(),
                run_spec(toks, Seq::empty(), h0, sel0, sel0) == run_spec(
                    toks.skip(idx as int),
                    stack.deep_view(),
                    haystack@,
                    (cur_s as int, cur_e as int),
                    sel0,
                ),
                run_buffer(toks, Seq::empty(), h0, sel0, sel0) == run_buffer(
                    toks.skip(idx as int),
                    stack.deep_view(),
                    haystack@,
                    (cur_s as int, cur_e as int),
                    sel0,
                ),
            decreases toks.len() - idx,
        {
            let ghost rest = toks.skip(idx as int);
            proof {
                assert(rest.first() == toks[idx as int]);
                assert(toks[idx as int] == self.ops@[idx as int]@);
            }
            let tok = &self.ops[idx];
            let op = match TextOperation::parse(tok.as_str()) {
                Option::Some(op) => op,
                Option::None => {
                    return Err(ExecError::UnknownOp(tok.clone()));
                },
            };
            let argc = op.arg_count();
            if self.ops.len() - idx - 1 < argc {
                return Err(ExecError::NotEnoughArguments(op, self.ops.len() - idx - 1));
            }
            let total = self.ops.len();
            let mut args: Vec<String> = Vec::new();
            let mut j: usize = 0;
            while j < argc
                invariant
                    toks == self.ops.deep_view(),
                    toks.len() == self.ops@.len(),
                    idx < toks.len(),
                    idx + 1 + argc <= toks.len(),
                    toks.len() == total,
                    j <= argc,
                    args.deep_view() =~= toks.subrange(idx as int + 1, idx as int + 1 + j as int),
                decreases argc - j,
            {
                args.push(self.ops[idx + 1 + j].clone());
                proof {
                    assert(args.deep_view() =~= toks.subrange(
                        idx as int + 1,
                        idx as int + 1 + j as int,
                    ).push(toks[idx as int + 1 + j as int]));
                    assert(toks.subrange(idx as int + 1, idx as int + 1 + j as int).push(
                        toks[idx as int + 1 + j as int],
                    ) =~= toks.subrange(idx as int + 1, idx as int + 2 + j as int));
                }
                j = j + 1;
            }
            proof {
                assert(args.deep_view() =~= rest.subrange(1, 1 + spec_arg_count(op)));
            }
            // Clip the selection into the buffer.
            let hl = haystack.len();
            let mut s1 = cur_s;
            if s1 > hl {
                s1 = hl;
            }
            let mut e1 = cur_e;
            if e1 < s1 {
                e1 = s1;
            }
            if e1 > hl {
                e1 = hl;
            }
            proof {
                assert((s1 as int, e1 as int) == normalize_sel(
                    (cur_s as int, cur_e as int),
                    haystack@.len() as int,
                ));
            }
            let ghost pre_stack = stack.deep_view();
            let ghost pre_hay = haystack@;
            match op.apply(&mut stack, haystack, orig_s..orig_e, s1..e1, &args) {
                Result::Ok(sp) => {
                    proof {
                        let st = step_op(op, args.deep_view(), pre_stack, pre_hay, (
                            s1 as int,
                            e1 as int,
                        ), sel0);
                        assert(st is Next);
                        assert(rest.skip(1 + spec_arg_count(op)) =~= toks.skip(
                            idx as int + 1 + spec_arg_count(op),
                        ));
                    }
                    cur_s = sp.start;
                    cur_e = sp.end;
                    idx = idx + 1 + argc;
                },
                Result::Err(e) => {
                    return Err(e);
                },
            }
        }
        proof {
            assert(toks.skip(idx as int) =~= Seq::<Seq<char>>::empty());
        }
        Ok(())
    }
}

// ---------------------------------------------------------------------------
// Synthesizing patches from diagnostics
// ---------------------------------------------------------------------------

/// Fold one official suggestion into a fragment's text and re-anchor the
/// selection by the documented three-case rule: a suggestion ending at or
/// before the selection shifts it left by the replacement's length; one
/// ending inside it pulls the start to the suggestion's start and keeps the
/// trailing overlap; one starting at or before the selection's end clips the
/// end to the suggestion's start.  Offsets are kept inside machine bounds,
/// and the replaced range is clipped into the text.
pub open spec fn sug_step(
    txt: Seq<u8>,
    sel: (int, int),
    sg: (int, int, Seq<char>, SuggestionApplicability),
) -> (Seq<u8>, (int, int)) {
    let rep = encode_utf8(sg.2);
    let sel2 = if sg.1 <= sel.0 {
        (
            if sel.0 - rep.len() >= 0 {
                sel.0 - rep.len()
            } else {
                0
            },
            if sel.1 - rep.len() >= 0 {
                sel.1 - rep.len()
            } else {
                0
            },
        )
    } else if sg.1 <= sel.1 {
        let ov = sel.1 - sg.1;
        (
            sg.0,
            if sg.0 + ov <= usize::MAX {
                sg.0 + ov
            } else {
                usize::MAX as int
            },
        )
    } else if sg.0 <= sel.1 {
        (
            if sel.0 <= sg.0 {
                sel.0
            } else {
                sg.0
            },
            sg.0,
        )
    } else {
        sel
    };
    let rs = if sg.0 <= txt.len() {
        sg.0
    } else {
        txt.len() as int
    };
    let re0 = if sg.0 <= sg.1 {
        sg.1
    } else {
        sg.0
    };
    let re = if re0 <= txt.len() {
        re0
    } else {
        txt.len() as int
    };
    (splice_spec(txt, rs, re, rep), sel2)
}

/// Fold the suggestions into a fragment, processed in descending order of
/// their start (rightmost first).
pub open spec fn fold_sugs(
    txt: Seq<u8>,
    sel: (int, int),
    sugs: Seq<(int, int, Seq<char>, SuggestionApplicability)>,
) -> (Seq<u8>, (int, int))
    decreases sugs.len(),
{
    if sugs.len() == 0 {
        (txt, sel)
    } else {
        let st = sug_step(txt, sel, sugs.last());
        fold_sugs(st.0, st.1, sugs.drop_last())
    }
}

/// The interpreter's output for one fragment: suggestions folded in first
/// when enabled, then the program run over the fragment's bytes with the
/// highlight as the initial selection (clipped into the buffer).
pub open spec fn fragment_out(
    suggestion: bool,
    ops: Seq<Seq<char>>,
    frag: SpanText,
    sugs: Seq<(int, int, Seq<char>, SuggestionApplicability)>,
) -> Result<Seq<u8>, RunFail> {
    let txt0 = encode_utf8(frag.text@);
    let sel0 = ((frag.highlight_start - 1) as int, (frag.highlight_end - 1) as int);
    let st = if suggestion {
        fold_sugs(txt0, sel0, sugs)
    } else {
        (txt0, sel0)
    };
    let seln = normalize_sel(st.1, st.0.len() as int);
    run_spec(ops, Seq::empty(), st.0, seln, seln)
}

/// A span's full replacement: the fragments' outputs concatenated in order;
/// the first failing fragment's failure wins.
pub open spec fn span_replacement(
    suggestion: bool,
    ops: Seq<Seq<char>>,
    frags: Seq<SpanText>,
    sugs: Seq<(int, int, Seq<char>, SuggestionApplicability)>,
) -> Result<Seq<u8>, RunFail>
    decreases frags.len(),
{
    if frags.len() == 0 {
        Ok(Seq::empty())
    } else {
        match span_replacement(suggestion, ops, frags.drop_last(), sugs) {
            Result::Err(f) => Err(f),
            Result::Ok(prev) => match fragment_out(suggestion, ops, frags.last(), sugs) {
                Result::Ok(b) => Ok(prev + b),
                Result::Err(f) => Err(f),
            },
        }
    }
}

/// A failure that abandons only the current span, not the whole run.
pub open spec fn run_fail_recoverable(f: RunFail) -> bool {
    f matches RunFail::Step(op, k) && k is NoMatch
}

/// The patches synthesized for the primary spans, as
/// (file, range start, range end, bytes) tuples: one per span whose
/// replacement succeeded, none for a span whose run found no match, and a
/// rejection of the whole batch on any other failure.
pub open spec fn diffs_spec(
    suggestion: bool,
    ops: Seq<Seq<char>>,
    prims: Seq<crate::message::Span>,
    helps: Seq<crate::message::Span>,
) -> Result<Seq<(Seq<char>, int, int, Seq<u8>)>, ()>
    decreases prims.len(),
{
    if prims.len() == 0 {
        Ok(Seq::empty())
    } else {
        match diffs_spec(suggestion, ops, prims.drop_last(), helps) {
            Result::Err(u) => Err(u),
            Result::Ok(prev) => {
                let p = prims.last();
                let sugs = sort_sugs(eligible_sugs(helps, raw_text_spec(p.text@)));
                match span_replacement(suggestion, ops, p.text@, sugs) {
                    Result::Ok(bytes) => Ok(
                        prev.push(
                            (p.file_name@, p.byte_start as int, p.byte_end as int, bytes),
                        ),
                    ),
                    Result::Err(f) => if run_fail_recoverable(f) {
                        Ok(prev)
                    } else {
                        Err(())
                    },
                }
            },
        }
    }
}

/// An error in an earlier fragment decides the whole span.
proof fn lemma_span_replacement_err(
    suggestion: bool,
    ops: Seq<Seq<char>>,
    frags: Seq<SpanText>,
    sugs: Seq<(int, int, Seq<char>, SuggestionApplicability)>,
    k: int,
)
    requires
        0 <= k <= frags.len(),
        span_replacement(suggestion, ops, frags.take(k), sugs) is Err,
    ensures
        span_replacement(suggestion, ops, frags, sugs) == span_replacement(
            suggestion,
            ops,
            frags.take(k),
            sugs,
        ),
    decreases frags.len() - k,
{
    if k == frags.len() {
        assert(frags.take(k) =~= frags);
    } else {
        assert(frags.take(k + 1).drop_last() =~= frags.take(k));
        lemma_span_replacement_err(suggestion, ops, frags, sugs, k + 1);
    }
}

/// A rejection at an earlier span decides the whole batch.
proof fn lemma_diffs_err(
    suggestion: bool,
    ops: Seq<Seq<char>>,
    prims: Seq<crate::message::Span>,
    helps: Seq<crate::message::Span>,
    k: int,
)
    requires
        0 <= k <= prims.len(),
        diffs_spec(suggestion, ops, prims.take(k), helps) is Err,
    ensures
        diffs_spec(suggestion, ops, prims, helps) is Err,
    decreases prims.len() - k,
{
    if k == prims.len() {
        assert(prims.take(k) =~= prims);
    } else {
        assert(prims.take(k + 1).drop_last() =~= prims.take(k));
        lemma_diffs_err(suggestion, ops, prims, helps, k + 1);
    }
}

/// What a message must satisfy before patches are synthesized for it: every
/// primary fragment's highlight bounds are 1-indexed, and every
/// single-fragment help span can be converted the same way.
pub open spec fn target_wf(m: CompilerMessage) -> bool {
    &&& forall|i: int, j: int|
        0 <= i < primary_of(m.spans@).len() && 0 <= j < primary_of(m.spans@)[i].text@.len()
            ==> (#[trigger] primary_of(m.spans@)[i].text@[j]).wf()
    &&& forall|k: int|
        0 <= k < help_spans_of(m.children@).len() ==> ((#[trigger] help_spans_of(
            m.children@,
        )[k]).text@.len() == 1 ==> help_spans_of(m.children@)[k].text@[0].wf())
}

impl Operation {
    /// Synthesize one patch per primary span of the message: fold eligible
    /// suggestions in (when enabled), run the program over each fragment,
    /// and emit the concatenated replacement against the span's outer byte
    /// range.  A span whose run finds no match is skipped; any other failure
    /// rejects the whole message.
    pub fn compute_diffs(&self, target: &CompilerMessage) -> (r: Result<Vec<Change>, ()>)
        requires
            target_wf(*target),
        ensures
            ({
                let spec = diffs_spec(
                    self.spec_suggestion(),
                    self.spec_ops(),
                    primary_of(target.spans@),
                    help_spans_of(target.children@),
                );
                match r {
                    Result::Ok(cs) => {
                        &&& spec matches Ok(vs)
                        &&& cs@.len() == spec->Ok_0.len()
                        &&& forall|i: int|
                            0 <= i < cs@.len() ==> {
                                let c = #[trigger] cs@[i];
                                let v = spec->Ok_0[i];
                                c.file@ == v.0 && c.patch.location.start == v.1
                                    && c.patch.location.end == v.2 && c.patch.bytes@ == v.3
                            }
                    },
                    Result::Err(u) => spec is Err,
                }
            }),
    {
        let ghost prims_spec = primary_of(target.spans@);
        let ghost helps_spec = help_spans_of(target.children@);
        let ghost sugg = self.spec_suggestion();
        let ghost ops = self.spec_ops();
        let mut sws = target.spans_with_suggestions();
        let ghost sws0 = sws@;
        let mut changes: Vec<Change> = Vec::new();
        let ghost mut k: int = 0;
        proof {
            assert(prims_spec.take(0) =~= Seq::<crate::message::Span>::empty());
        }
        while sws.len() > 0
            invariant
                sugg == self.spec_suggestion(),
                ops == self.spec_ops(),
                prims_spec == primary_of(target.spans@),
                helps_spec == help_spans_of(target.children@),
                sws0.len() == prims_spec.len(),
                forall|i: int|
                    0 <= i < sws0.len() ==> span_like(
                        (#[trigger] sws0[i]).primary,
                        prims_spec[i],
                    ) && sugs_view(sws0[i].suggestions@) == sort_sugs(
                        eligible_sugs(helps_spec, raw_text_spec(prims_spec[i].text@)),
                    ),
                forall|i: int, j: int|
                    0 <= i < prims_spec.len() && 0 <= j < prims_spec[i].text@.len()
                        ==> (#[trigger] prims_spec[i].text@[j]).wf(),
                0 <= k <= sws0.len(),
                sws@ =~= sws0.skip(k),
                ({
                    let spec_k = diffs_spec(sugg, ops, prims_spec.take(k), helps_spec);
                    &&& spec_k matches Ok(vs)
                    &&& changes@.len() == spec_k->Ok_0.len()
                    &&& forall|i: int|
                        0 <= i < changes@.len() ==> {
                            let c = #[trigger] changes@[i];
                            let v = spec_k->Ok_0[i];
                            c.file@ == v.0 && c.patch.location.start == v.1
                                && c.patch.location.end == v.2 && c.patch.bytes@ == v.3
                        }
                }),
            decreases sws@.len(),
        {
            let sas = sws.remove(0);
            proof {
                assert(sas == sws0[k]);
                assert(sws@ =~= sws0.skip(k + 1));
                assert(prims_spec.take(k + 1).drop_last() =~= prims_spec.take(k));
                assert(prims_spec.take(k + 1).last() == prims_spec[k]);
            }
            let ghost p = prims_spec[k];
            let ghost sugsv = sort_sugs(eligible_sugs(helps_spec, raw_text_spec(p.text@)));
            let ghost frags = p.text@;
            let mut new_bytes: Vec<u8> = Vec::new();
            let mut skip = false;
            let mut f: usize = 0;
            proof {
                assert(sas.primary.text@ == frags);
                assert(sugs_view(sas.suggestions@) == sugsv);
                assert(span_replacement(sugg, ops, frags.take(0), sugsv)
                    == Ok::<Seq<u8>, RunFail>(Seq::empty()));
                assert(new_bytes@ =~= Seq::<u8>::empty());
            }
            while f < sas.primary.text.len() && !skip
                invariant
                    sugg == self.spec_suggestion(),
                    ops == self.spec_ops(),
                    prims_spec == primary_of(target.spans@),
                    helps_spec == help_spans_of(target.children@),
                    0 <= k < prims_spec.len(),
                    p == prims_spec[k],
                    frags == p.text@,
                    sugsv == sort_sugs(eligible_sugs(helps_spec, raw_text_spec(p.text@))),
                    diffs_spec(sugg, ops, prims_spec.take(k), helps_spec) matches Ok(vv),
                    sas.primary.text@ == frags,
                    sugs_view(sas.suggestions@) == sugsv,
                    forall|j: int| 0 <= j < frags.len() ==> (#[trigger] frags[j]).wf(),
                    f <= frags.len(),
                    !skip ==> span_replacement(sugg, ops, frags.take(f as int), sugsv)
                        == Ok::<Seq<u8>, RunFail>(new_bytes@),
                    skip ==> (span_replacement(sugg, ops, frags, sugsv) matches Err(ff)
                        && run_fail_recoverable(ff)),
                decreases frags.len() - f, (if skip { 0int } else { 1int }),
            {
                proof {
                    assert(frags.take(f as int + 1).drop_last() =~= frags.take(f as int));
                    assert(frags.take(f as int + 1).last() == frags[f as int]);
                    assert(frags[f as int].wf());
                }
                let frag = &sas.primary.text[f];
                let mut txt: Vec<u8> = vstd::string::StrSliceExecFns::as_bytes_vec(
                    frag.text.as_str(),
                );
                let mut ss: usize = frag.highlight_start - 1;
                let mut ee: usize = frag.highlight_end - 1;
                let ghost txt0 = encode_utf8(frags[f as int].text@);
                let ghost sel0 = ((frags[f as int].highlight_start - 1) as int,
                    (frags[f as int].highlight_end - 1) as int);
                proof {
                    assert(txt@ == txt0);
                    assert((ss as int, ee as int) == sel0);
                }
                if self.suggestion {
                    let mut jj: usize = sas.suggestions.len();
                    proof {
                        assert(sugsv.subrange(0, jj as int) =~= sugsv);
                    }
                    while jj > 0
                        invariant
                            sugs_view(sas.suggestions@) == sugsv,
                            jj <= sugsv.len(),
                            sugsv.len() == sas.suggestions@.len(),
                            fold_sugs(txt0, sel0, sugsv) == fold_sugs(
                                txt@,
                                (ss as int, ee as int),
                                sugsv.subrange(0, jj as int),
                            ),
                        decreases jj,
                    {
                        jj = jj - 1;
                        proof {
                            assert(sugsv.subrange(0, jj as int + 1).drop_last()
                                =~= sugsv.subrange(0, jj as int));
                            assert(sugsv.subrange(0, jj as int + 1).last() == sugsv[jj as int]);
                            assert(sugsv[jj as int] == sugs_view(sas.suggestions@)[jj as int]);
                        }
                        let rep_b = sas.suggestions[jj].1.as_str().as_bytes();
                        let rl = rep_b.len();
                        let sg_s = sas.suggestions[jj].0.start;
                        let sg_e = sas.suggestions[jj].0.end;
                        proof {
                            assert(rep_b@ == encode_utf8(sugsv[jj as int].2));
                            assert(sg_s as int == sugsv[jj as int].0);
                            assert(sg_e as int == sugsv[jj as int].1);
                        }
                        if sg_e <= ss {
                            ss = if ss >= rl {
                                ss - rl
                            } else {
                                0
                            };
                            ee = if ee >= rl {
                                ee - rl
                            } else {
                                0
                            };
                        } else if sg_e <= ee {
                            let ov = ee - sg_e;
                            ss = sg_s;
                            ee = if sg_s <= usize::MAX - ov {
                                sg_s + ov
                            } else {
                                usize::MAX
                            };
                        } else if sg_s <= ee {
                            ee = sg_s;
                            if ss > ee {
                                ss = ee;
                            }
                        }
                        let rs = if sg_s <= txt.len() {
                            sg_s
                        } else {
                            txt.len()
                        };
                        let re0 = if sg_s <= sg_e {
                            sg_e
                        } else {
                            sg_s
                        };
                        let re = if re0 <= txt.len() {
                            re0
                        } else {
                            txt.len()
                        };
                        let t2 = splice_bytes(&txt, rs, re, rep_b);
                        txt = t2;
                    }
                    proof {
                        assert(sugsv.subrange(0, 0) =~= Seq::<(
                            int,
                            int,
                            Seq<char>,
                            SuggestionApplicability,
                        )>::empty());
                    }
                }
                // Clip the selection into the buffer and run the program.
                let hl = txt.len();
                let mut s1 = ss;
                if s1 > hl {
                    s1 = hl;
                }
                let mut e1 = ee;
                if e1 < s1 {
                    e1 = s1;
                }
                if e1 > hl {
                    e1 = hl;
                }
                proof {
                    let st = if sugg {
                        fold_sugs(txt0, sel0, sugsv)
                    } else {
                        (txt0, sel0)
                    };
                    assert(txt@ == st.0);
                    assert((s1 as int, e1 as int) == normalize_sel(st.1, st.0.len() as int));
                }
                match self.run(&mut txt, s1..e1) {
                    Result::Ok(u) => {
                        proof {
                            assert(fragment_out(sugg, ops, frags[f as int], sugsv)
                                == Ok::<Seq<u8>, RunFail>(txt@));
                        }
                        let ghost pre = new_bytes@;
                        crate::apply::push_bytes(&mut new_bytes, txt.as_slice());
                        proof {
                            assert(new_bytes@ == pre + txt@);
                        }
                        f = f + 1;
                    },
                    Result::Err(e) => {
                        proof {
                            assert(fragment_out(sugg, ops, frags[f as int], sugsv) is Err);
                        }
                        if e.stop_all() {
                            proof {
                                let ff = fragment_out(sugg, ops, frags[f as int], sugsv)->Err_0;
                                assert(!run_fail_recoverable(ff));
                                assert(span_replacement(sugg, ops, frags.take(f as int + 1), sugsv)
                                    is Err);
                                lemma_span_replacement_err(sugg, ops, frags, sugsv, f as int + 1);
                                assert(diffs_spec(sugg, ops, prims_spec.take(k + 1), helps_spec)
                                    is Err);
                                lemma_diffs_err(sugg, ops, prims_spec, helps_spec, k + 1);
                            }
                            return Err(());
                        } else {
                            proof {
                                let ff = fragment_out(sugg, ops, frags[f as int], sugsv)->Err_0;
                                assert(run_fail_recoverable(ff));
                                assert(span_replacement(sugg, ops, frags.take(f as int + 1), sugsv)
                                    is Err);
                                lemma_span_replacement_err(sugg, ops, frags, sugsv, f as int + 1);
                            }
                            skip = true;
                        }
                    },
                }
            }
            if !skip {
                proof {
                    assert(frags.take(frags.len() as int) =~= frags);
                    assert(span_replacement(sugg, ops, frags, sugsv) == Ok::<Seq<u8>, RunFail>(
                        new_bytes@,
                    ));
                }
                let file = sas.primary.file_name;
                let loc = sas.primary.byte_start..sas.primary.byte_end;
                changes.push(Change { file, patch: Patch { location: loc, bytes: new_bytes } });
            }
            proof {
                k = k + 1;
            }
        }
        proof {
            assert(prims_spec.take(k) =~= prims_spec);
        }
        Ok(changes)
    }

    /// The outcome of synthesizing patches for a stream of messages, in
    /// order: the patches of every message before the first rejection, and
    /// whether a rejection stopped the run.
    pub open spec fn synth_spec(
        suggestion: bool,
        ops: Seq<Seq<char>>,
        msgs: Seq<CompilerMessage>,
    ) -> (Seq<(Seq<char>, int, int, Seq<u8>)>, bool)
        decreases msgs.len(),
    {
        if msgs.len() == 0 {
            (Seq::empty(), false)
        } else {
            let prev = Self::synth_spec(suggestion, ops, msgs.drop_last());
            if prev.1 {
                prev
            } else {
                match diffs_spec(
                    suggestion,
                    ops,
                    primary_of(msgs.last().spans@),
                    help_spans_of(msgs.last().children@),
                ) {
                    Result::Ok(vs) => (prev.0 + vs, false),
                    Result::Err(u) => (prev.0, true),
                }
            }
        }
    }

    /// LAW: synthesize patches for a stream of messages in order.  A
    /// rejection (any failure but a missing match) stops the run, but every
    /// patch synthesized from the messages before it is kept and returned.
    pub fn synthesize_all(&self, targets: &Vec<CompilerMessage>) -> (r: (Vec<Change>, bool))
        requires
            forall|i: int| 0 <= i < targets@.len() ==> target_wf(#[trigger] targets@[i]),
        ensures
            ({
                let spec = Self::synth_spec(
                    self.spec_suggestion(),
                    self.spec_ops(),
                    targets@,
                );
                &&& r.1 == spec.1
                &&& r.0@.len() == spec.0.len()
                &&& forall|i: int|
                    0 <= i < r.0@.len() ==> {
                        let c = #[trigger] r.0@[i];
                        let v = spec.0[i];
                        c.file@ == v.0 && c.patch.location.start == v.1 && c.patch.location.end
                            == v.2 && c.patch.bytes@ == v.3
                    }
            }),
    {
        let ghost sugg = self.spec_suggestion();
        let ghost ops = self.spec_ops();
        let mut changes: Vec<Change> = Vec::new();
        let mut i: usize = 0;
        while i < targets.len()
            invariant
                sugg == self.spec_suggestion(),
                ops == self.spec_ops(),
                forall|w: int| 0 <= w < targets@.len() ==> target_wf(#[trigger] targets@[w]),
                i <= targets@.len(),
                ({
                    let spec_i = Self::synth_spec(sugg, ops, targets@.take(i as int));
                    &&& spec_i.1 == false
                    &&& changes@.len() == spec_i.0.len()
                    &&& forall|w: int|
                        0 <= w < changes@.len() ==> {
                            let c = #[trigger] changes@[w];
                            let v = spec_i.0[w];
                            c.file@ == v.0 && c.patch.location.start == v.1
                                && c.patch.location.end == v.2 && c.patch.bytes@ == v.3
                        }
                }),
            decreases targets@.len() - i,
        {
            proof {
                assert(targets@.take(i as int + 1).drop_last() =~= targets@.take(i as int));
                assert(targets@.take(i as int + 1).last() == targets@[i as int]);
            }
            match self.compute_diffs(&targets[i]) {
                Result::Ok(mut cs) => {
                    let ghost pre = changes@;
                    let ghost csv = cs@;
                    changes.append(&mut cs);
                    proof {
                        assert(changes@ == pre + csv);
                    }
                    i = i + 1;
                },
                Result::Err(u) => {
                    proof {
                        let spec_f = Self::synth_spec(sugg, ops, targets@);
                        lemma_synth_stopped(sugg, ops, targets@, i as int + 1);
                    }
                    return (changes, true);
                },
            }
        }
        proof {
            assert(targets@.take(targets@.len() as int) =~= targets@);
        }
        (changes, false)
    }
}

/// Once the synthesis stops, later messages change nothing.
proof fn lemma_synth_stopped(
    suggestion: bool,
    ops: Seq<Seq<char>>,
    msgs: Seq<CompilerMessage>,
    k: int,
)
    requires
        0 <= k <= msgs.len(),
        Operation::synth_spec(suggestion, ops, msgs.take(k)).1,
    ensures
        Operation::synth_spec(suggestion, ops, msgs) == Operation::synth_spec(
            suggestion,
            ops,
            msgs.take(k),
        ),
    decreases msgs.len() - k,
{
    if k == msgs.len() {
        assert(msgs.take(k) =~= msgs);
    } else {
        assert(msgs.take(k + 1).drop_last() =~= msgs.take(k));
        lemma_synth_stopped(suggestion, ops, msgs, k + 1);
    }
}

/// LAW: `replace`, `substitute` and `substitute-all` always leave a
/// selection whose length equals the byte length of the newly inserted
/// text: the step keeps the selection start and the buffer grows by exactly
/// the new selection's length in place of the old one.
pub proof fn lemma_selection_tracks_insertion(
    op: TextOperation,
    args: Seq<Seq<char>>,
    stack: Seq<Seq<u8>>,
    hay: Seq<u8>,
    sel: (int, int),
    orig: (int, int),
)
    requires
        op is Replace || op is Substitute || op is SubstituteAll,
        0 <= sel.0 <= sel.1 <= hay.len(),
    ensures
        match step_op(op, args, stack, hay, sel, orig) {
            StepResult::Next(st2, hay2, sel2) => sel2.0 == sel.0 && sel2.1 - sel2.0 == hay2.len()
                - hay.len() + (sel.1 - sel.0),
            StepResult::Fail(k, st2) => true,
        },
{
    match step_op(op, args, stack, hay, sel, orig) {
        StepResult::Next(st2, hay2, sel2) => {
            assert(hay2.len() == sel.0 + (sel2.1 - sel.0) + (hay.len() - sel.1)) by {
                assert(hay.subrange(0, sel.0).len() == sel.0);
                assert(hay.subrange(sel.1, hay.len() as int).len() == hay.len() - sel.1);
            }
        },
        StepResult::Fail(k, st2) => {},
    }
}

} // verus!

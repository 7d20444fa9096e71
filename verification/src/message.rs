use vstd::prelude::*;
use vstd::string::StringSliceAdditionalSpecFns;
use vstd::utf8::encode_utf8;

verus! {

/// The machine-readable code of a diagnostic, such as an error number or a
/// lint name.
#[derive(Debug, Clone)]
pub struct CompilerMessageCode {
    pub code: Option<String>,
}

/// Confidence tag on an official fix suggestion.
#[derive(Debug, Clone, Copy, PartialEq, Eq, Structural)]
pub enum SuggestionApplicability {
    MachineApplicable,
    MaybeIncorrect,
    HasPlaceholders,
    Unspecified,
}

/// One literal line (or continuation) of source text in a span, with its
/// highlighted sub-range as 1-indexed inclusive bounds.
#[derive(Debug)]
pub struct SpanText {
    pub highlight_end: usize,
    pub highlight_start: usize,
    pub text: String,
}

/// A diagnostic's source location: a file, an outer byte range, and the
/// highlighted source fragments.
#[derive(Debug)]
pub struct Span {
    pub file_name: String,
    pub byte_start: usize,
    pub byte_end: usize,
    pub line_start: usize,
    pub line_end: usize,
    pub column_start: usize,
    pub column_end: usize,
    pub text: Vec<SpanText>,
    pub label: Option<String>,
    pub is_primary: bool,
    pub suggested_replacement: Option<String>,
    pub suggestion_applicability: Option<SuggestionApplicability>,
}

/// One structured compiler message, possibly carrying nested help notes.
#[derive(Debug)]
pub struct CompilerMessage {
    pub code: Option<CompilerMessageCode>,
    pub level: String,
    pub message: String,
    pub spans: Vec<Span>,
    pub children: Vec<CompilerMessage>,
}

/// The build target a message belongs to.
#[derive(Debug, Clone)]
pub struct Target {
    pub kind: Vec<String>,
    pub name: String,
    pub src_path: String,
    pub features: Vec<String>,
}

/// A primary span together with the eligible suggestions for it, each as
/// (byte range in the raw text, replacement text, applicability), sorted
/// ascending by range start.
#[derive(Debug)]
pub struct SpanAndSuggestions {
    pub primary: Span,
    pub suggestions: Vec<(core::ops::Range<usize>, String, SuggestionApplicability)>,
}

impl Clone for SpanText {
    /// An exact copy, field by field.
    fn clone(&self) -> (r: Self)
        ensures
            r == *self,
    {
        SpanText {
            highlight_end: self.highlight_end,
            highlight_start: self.highlight_start,
            text: self.text.clone(),
        }
    }
}

/// Copy a list of fragments, element by element.
fn clone_texts(v: &Vec<SpanText>) -> (r: Vec<SpanText>)
    ensures
        r@ =~= v@,
{
    let mut r: Vec<SpanText> = Vec::new();
    let mut i: usize = 0;
    while i < v.len()
        invariant
            i <= v@.len(),
            r@ =~= v@.subrange(0, i as int),
        decreases v@.len() - i,
    {
        r.push(v[i].clone());
        proof {
            assert(r@ =~= v@.subrange(0, i as int + 1));
        }
        i = i + 1;
    }
    proof {
        assert(v@.subrange(0, v@.len() as int) =~= v@);
    }
    r
}

/// Two spans that agree on every field (the fragment list compared by its
/// contents).
pub open spec fn span_like(a: Span, b: Span) -> bool {
    &&& a.file_name == b.file_name
    &&& a.byte_start == b.byte_start
    &&& a.byte_end == b.byte_end
    &&& a.line_start == b.line_start
    &&& a.line_end == b.line_end
    &&& a.column_start == b.column_start
    &&& a.column_end == b.column_end
    &&& a.text@ == b.text@
    &&& a.label == b.label
    &&& a.is_primary == b.is_primary
    &&& a.suggested_replacement == b.suggested_replacement
    &&& a.suggestion_applicability == b.suggestion_applicability
}

impl Clone for Span {
    /// An exact copy, field by field.
    fn clone(&self) -> (r: Self)
        ensures
            span_like(r, *self),
    {
        let r = Span {
            file_name: self.file_name.clone(),
            byte_start: self.byte_start,
            byte_end: self.byte_end,
            line_start: self.line_start,
            line_end: self.line_end,
            column_start: self.column_start,
            column_end: self.column_end,
            text: clone_texts(&self.text),
            label: match &self.label {
                Option::Some(l) => Some(l.clone()),
                Option::None => None,
            },
            is_primary: self.is_primary,
            suggested_replacement: match &self.suggested_replacement {
                Option::Some(s) => Some(s.clone()),
                Option::None => None,
            },
            suggestion_applicability: match &self.suggestion_applicability {
                Option::Some(a) => Some(*a),
                Option::None => None,
            },
        };
        r
    }
}

/// The concatenated literal text of a span's fragments.
pub open spec fn raw_text_spec(texts: Seq<SpanText>) -> Seq<char>
    decreases texts.len(),
{
    if texts.len() == 0 {
        Seq::empty()
    } else {
        raw_text_spec(texts.drop_last()) + texts.last().text@
    }
}

impl Span {
    /// The concatenation of all fragment texts of this span.
    pub fn raw_text(&self) -> (r: String)
        ensures
            r@ == raw_text_spec(self.text@),
    {
        let mut r = String::new();
        let mut i: usize = 0;
        proof {
            assert(raw_text_spec(self.text@.subrange(0, 0)) =~= Seq::<char>::empty());
            assert(r@ =~= Seq::<char>::empty());
        }
        while i < self.text.len()
            invariant
                i <= self.text@.len(),
                r@ == raw_text_spec(self.text@.subrange(0, i as int)),
            decreases self.text@.len() - i,
        {
            vstd::string::StringExecFns::append(&mut r, self.text[i].text.as_str());
            proof {
                assert(self.text@.subrange(0, i as int + 1).drop_last() =~= self.text@.subrange(
                    0,
                    i as int,
                ));
                assert(self.text@.subrange(0, i as int + 1).last() == self.text@[i as int]);
            }
            i = i + 1;
        }
        proof {
            assert(self.text@.subrange(0, self.text@.len() as int) =~= self.text@);
        }
        r
    }
}

impl SpanText {
    /// The highlight bounds are 1-indexed and can be converted to a
    /// 0-indexed half-open byte range.
    pub open spec fn wf(&self) -> bool {
        self.highlight_start >= 1 && self.highlight_end >= 1
    }

    /// The fragment's highlight as a 0-indexed half-open byte range.
    pub fn highlighted_span(&self) -> (r: core::ops::Range<usize>)
        requires
            self.wf(),
        ensures
            r.start == self.highlight_start - 1 && r.end == self.highlight_end - 1,
    {
        (self.highlight_start - 1)..(self.highlight_end - 1)
    }

    /// The highlighted slice of the fragment's text.
    pub fn highlighted(&self) -> (r: String)
        requires
            self.wf(),
            self.highlight_start <= self.highlight_end,
            self.highlight_end - 1 <= encode_utf8(self.text@).len(),
        ensures
            ({
                let sub = encode_utf8(self.text@).subrange(
                    self.highlight_start - 1,
                    self.highlight_end - 1,
                );
                &&& r@ == crate::text::lossy_decode(sub)
                &&& (vstd::utf8::valid_utf8(sub) ==> encode_utf8(r@) == sub)
            }),
    {
        let b = self.text.as_str().as_bytes();
        let sub = vstd::slice::slice_subrange(b, self.highlight_start - 1, self.highlight_end - 1);
        crate::text::lossy_string(sub)
    }

    /// The fragment's text with the highlighted byte range replaced by the
    /// given replacement.
    pub fn replace_highlighted(&self, replacement: &str) -> (r: String)
        requires
            self.wf(),
            self.highlight_start <= self.highlight_end,
            self.highlight_end - 1 <= encode_utf8(self.text@).len(),
        ensures
            ({
                let spliced = encode_utf8(self.text@).subrange(0, self.highlight_start - 1)
                    + replacement.spec_bytes() + encode_utf8(self.text@).subrange(
                    self.highlight_end - 1,
                    encode_utf8(self.text@).len() as int,
                );
                &&& r@ == crate::text::lossy_decode(spliced)
                &&& (vstd::utf8::valid_utf8(spliced) ==> encode_utf8(r@) == spliced)
            }),
    {
        let b = self.text.as_str().as_bytes();
        let mut out: Vec<u8> = Vec::new();
        crate::apply::push_bytes(
            &mut out,
            vstd::slice::slice_subrange(b, 0, self.highlight_start - 1),
        );
        crate::apply::push_bytes(&mut out, replacement.as_bytes());
        crate::apply::push_bytes(
            &mut out,
            vstd::slice::slice_subrange(b, self.highlight_end - 1, b.len()),
        );
        crate::text::lossy_string(out.as_slice())
    }
}

/// The primary spans of a list, in order.
pub open spec fn primary_of(spans: Seq<Span>) -> Seq<Span>
    decreases spans.len(),
{
    if spans.len() == 0 {
        Seq::empty()
    } else {
        let prev = primary_of(spans.drop_last());
        if spans.last().is_primary {
            prev.push(spans.last())
        } else {
            prev
        }
    }
}

/// The spans of a list that carry a suggested replacement, in order.
pub open spec fn suggestible_of(spans: Seq<Span>) -> Seq<Span>
    decreases spans.len(),
{
    if spans.len() == 0 {
        Seq::empty()
    } else {
        let prev = suggestible_of(spans.drop_last());
        if spans.last().suggested_replacement is Some {
            prev.push(spans.last())
        } else {
            prev
        }
    }
}

/// The suggestion-carrying spans of all help children, in order.
pub open spec fn help_spans_of(children: Seq<CompilerMessage>) -> Seq<Span>
    decreases children.len(),
{
    if children.len() == 0 {
        Seq::empty()
    } else {
        help_spans_of(children.drop_last()) + (if children.last().level@ == "help"@ {
            suggestible_of(children.last().spans@)
        } else {
            Seq::empty()
        })
    }
}

impl CompilerMessage {
    /// A message that can be fixed by itself: not a failure note, and not
    /// the final tally of errors.
    pub fn is_singular(&self) -> (r: bool)
        ensures
            r == (self.level@ != "failure-note"@ && !(self.message@.len() >= 12
                && self.message@.subrange(0, 12) == "aborting due"@)),
    {
        if crate::operation::str_eq(self.level.as_str(), "failure-note") {
            return false;
        }
        let m = self.message.as_str();
        if vstd::string::StrSliceExecFns::unicode_len(m) < 12 {
            proof {
                reveal_strlit("aborting due");
            }
            return true;
        }
        let prefix = vstd::string::StrSliceExecFns::substring_char(m, 0, 12);
        let eq = crate::operation::str_eq(prefix, "aborting due");
        !eq
    }

    /// Error code or lint name as text, if any.
    pub fn code(&self) -> (r: Option<&str>)
        ensures
            match r {
                Option::Some(c) => self.code matches Some(cc) && cc.code matches Some(s) && c@
                    == s@,
                Option::None => self.code is None || self.code->Some_0.code is None,
            },
    {
        match &self.code {
            Option::Some(cc) => match &cc.code {
                Option::Some(s) => Some(s.as_str()),
                Option::None => None,
            },
            Option::None => None,
        }
    }

    /// The spans flagged primary, in order.
    pub fn primary_spans(&self) -> (r: Vec<Span>)
        ensures
            r@.len() == primary_of(self.spans@).len(),
            forall|i: int|
                0 <= i < r@.len() ==> span_like(#[trigger] r@[i], primary_of(self.spans@)[i]),
    {
        let mut r: Vec<Span> = Vec::new();
        let mut i: usize = 0;
        while i < self.spans.len()
            invariant
                i <= self.spans@.len(),
                r@.len() == primary_of(self.spans@.subrange(0, i as int)).len(),
                forall|k: int|
                    0 <= k < r@.len() ==> span_like(
                        #[trigger] r@[k],
                        primary_of(self.spans@.subrange(0, i as int))[k],
                    ),
            decreases self.spans@.len() - i,
        {
            proof {
                assert(self.spans@.subrange(0, i as int + 1).drop_last() =~= self.spans@.subrange(
                    0,
                    i as int,
                ));
                assert(self.spans@.subrange(0, i as int + 1).last() == self.spans@[i as int]);
            }
            if self.spans[i].is_primary {
                r.push(self.spans[i].clone());
            }
            i = i + 1;
        }
        proof {
            assert(self.spans@.subrange(0, self.spans@.len() as int) =~= self.spans@);
        }
        r
    }

    /// The help children's spans that carry suggestions, in order.
    pub fn help_items(&self) -> (r: Vec<Span>)
        ensures
            r@.len() == help_spans_of(self.children@).len(),
            forall|i: int|
                0 <= i < r@.len() ==> span_like(#[trigger] r@[i], help_spans_of(self.children@)[i]),
    {
        let mut r: Vec<Span> = Vec::new();
        let mut i: usize = 0;
        while i < self.children.len()
            invariant
                i <= self.children@.len(),
                r@.len() == help_spans_of(self.children@.subrange(0, i as int)).len(),
                forall|k: int|
                    0 <= k < r@.len() ==> span_like(
                        #[trigger] r@[k],
                        help_spans_of(self.children@.subrange(0, i as int))[k],
                    ),
            decreases self.children@.len() - i,
        {
            proof {
                assert(self.children@.subrange(0, i as int + 1).drop_last()
                    =~= self.children@.subrange(0, i as int));
                assert(self.children@.subrange(0, i as int + 1).last()
                    == self.children@[i as int]);
            }
            let child = &self.children[i];
            if crate::operation::str_eq(child.level.as_str(), "help") {
                let ghost base = help_spans_of(self.children@.subrange(0, i as int));
                let mut j: usize = 0;
                let ghost pre_len = r@.len() as int;
                while j < child.spans.len()
                    invariant
                        j <= child.spans@.len(),
                        pre_len == base.len(),
                        r@.len() == pre_len + suggestible_of(
                            child.spans@.subrange(0, j as int),
                        ).len(),
                        forall|k: int|
                            0 <= k < pre_len ==> span_like(#[trigger] r@[k], base[k]),
                        forall|k: int|
                            pre_len <= k < r@.len() ==> span_like(
                                #[trigger] r@[k],
                                suggestible_of(child.spans@.subrange(0, j as int))[k - pre_len],
                            ),
                    decreases child.spans@.len() - j,
                {
                    proof {
                        assert(child.spans@.subrange(0, j as int + 1).drop_last()
                            =~= child.spans@.subrange(0, j as int));
                        assert(child.spans@.subrange(0, j as int + 1).last()
                            == child.spans@[j as int]);
                    }
                    if child.spans[j].suggested_replacement.is_some() {
                        r.push(child.spans[j].clone());
                    }
                    j = j + 1;
                }
                proof {
                    assert(child.spans@.subrange(0, child.spans@.len() as int) =~= child.spans@);
                    assert(help_spans_of(self.children@.subrange(0, i as int + 1)) =~= base
                        + suggestible_of(child.spans@));
                    assert forall|k: int| 0 <= k < r@.len() implies span_like(
                        #[trigger] r@[k],
                        help_spans_of(self.children@.subrange(0, i as int + 1))[k],
                    ) by {
                        if k < pre_len {
                        } else {
                        }
                    }
                }
            } else {
                proof {
                    assert(help_spans_of(self.children@.subrange(0, i as int + 1))
                        =~= help_spans_of(self.children@.subrange(0, i as int))
                        + Seq::<Span>::empty());
                    assert(help_spans_of(self.children@.subrange(0, i as int + 1))
                        =~= help_spans_of(self.children@.subrange(0, i as int)));
                }
            }
            i = i + 1;
        }
        proof {
            assert(self.children@.subrange(0, self.children@.len() as int) =~= self.children@);
        }
        r
    }
}

/// The view of one collected suggestion: byte range start and end in the raw
/// text, the replacement text, and the applicability tag.
pub open spec fn sug_of(h: Span) -> (int, int, Seq<char>, SuggestionApplicability) {
    (
        h.text@[0].highlight_start - 1,
        h.text@[0].highlight_end - 1,
        h.suggested_replacement->Some_0@,
        match h.suggestion_applicability {
            Option::Some(a) => a,
            Option::None => SuggestionApplicability::Unspecified,
        },
    )
}

/// The suggestions among `helps` that are eligible for a primary span whose
/// raw text is `praw`: their raw text matches and they consist of a single
/// fragment.  In arrival order.
pub open spec fn eligible_sugs(helps: Seq<Span>, praw: Seq<char>) -> Seq<
    (int, int, Seq<char>, SuggestionApplicability),
>
    decreases helps.len(),
{
    if helps.len() == 0 {
        Seq::empty()
    } else {
        let prev = eligible_sugs(helps.drop_last(), praw);
        if raw_text_spec(helps.last().text@) == praw && helps.last().text@.len() == 1 {
            prev.push(sug_of(helps.last()))
        } else {
            prev
        }
    }
}

/// Insert a suggestion after every one whose range starts at or before its
/// own: a stable insertion by range start.
pub open spec fn insert_sug(
    ss: Seq<(int, int, Seq<char>, SuggestionApplicability)>,
    x: (int, int, Seq<char>, SuggestionApplicability),
) -> Seq<(int, int, Seq<char>, SuggestionApplicability)>
    decreases ss.len(),
{
    if ss.len() == 0 {
        seq![x]
    } else if ss.last().0 <= x.0 {
        ss.push(x)
    } else {
        insert_sug(ss.drop_last(), x).push(ss.last())
    }
}

/// Stable sort of suggestions by range start, as a fold of `insert_sug`.
pub open spec fn sort_sugs(ss: Seq<(int, int, Seq<char>, SuggestionApplicability)>) -> Seq<
    (int, int, Seq<char>, SuggestionApplicability),
>
    decreases ss.len(),
{
    if ss.len() == 0 {
        Seq::empty()
    } else {
        insert_sug(sort_sugs(ss.drop_last()), ss.last())
    }
}

/// The view of the collected suggestion tuples.
pub open spec fn sugs_view(
    v: Seq<(core::ops::Range<usize>, String, SuggestionApplicability)>,
) -> Seq<(int, int, Seq<char>, SuggestionApplicability)> {
    v.map_values(
        |t: (core::ops::Range<usize>, String, SuggestionApplicability)|
            (t.0.start as int, t.0.end as int, t.1@, t.2),
    )
}

/// Eligibility reads only what `span_like` preserves, so alike span lists
/// yield the same suggestions.
proof fn lemma_eligible_like(a: Seq<Span>, b: Seq<Span>, praw: Seq<char>)
    requires
        a.len() == b.len(),
        forall|i: int| 0 <= i < a.len() ==> span_like(#[trigger] a[i], b[i]),
    ensures
        eligible_sugs(a, praw) == eligible_sugs(b, praw),
    decreases a.len(),
{
    if a.len() > 0 {
        assert(forall|i: int|
            0 <= i < a.len() - 1 ==> #[trigger] a.drop_last()[i] == a[i] && b.drop_last()[i]
                == b[i]);
        lemma_eligible_like(a.drop_last(), b.drop_last(), praw);
        assert(span_like(a.last(), b.last()));
        assert(raw_text_spec(a.last().text@) == raw_text_spec(b.last().text@));
    }
}

/// Inserting at the position found by scanning from the end matches
/// `insert_sug`.
proof fn lemma_insert_sug_at(
    ss: Seq<(int, int, Seq<char>, SuggestionApplicability)>,
    x: (int, int, Seq<char>, SuggestionApplicability),
    k: int,
)
    requires
        0 <= k <= ss.len(),
        forall|j: int| k <= j < ss.len() ==> (#[trigger] ss[j]).0 > x.0,
        k > 0 ==> ss[k - 1].0 <= x.0,
    ensures
        insert_sug(ss, x) == ss.take(k) + seq![x] + ss.skip(k),
    decreases ss.len(),
{
    if ss.len() == 0 {
        assert(insert_sug(ss, x) =~= ss.take(k) + seq![x] + ss.skip(k));
    } else if k == ss.len() {
        assert(insert_sug(ss, x) =~= ss.take(k) + seq![x] + ss.skip(k));
    } else {
        lemma_insert_sug_at(ss.drop_last(), x, k);
        assert(insert_sug(ss, x) =~= ss.take(k) + seq![x] + ss.skip(k));
    }
}

/// Every span a help child offers carries a suggested replacement.
proof fn lemma_suggestible_some(spans: Seq<Span>)
    ensures
        forall|i: int|
            0 <= i < suggestible_of(spans).len() ==> (#[trigger] suggestible_of(
                spans,
            )[i]).suggested_replacement is Some,
    decreases spans.len(),
{
    if spans.len() > 0 {
        lemma_suggestible_some(spans.drop_last());
        let prev = suggestible_of(spans.drop_last());
        if spans.last().suggested_replacement is Some {
            assert(forall|i: int|
                0 <= i < prev.len() ==> #[trigger] suggestible_of(spans)[i] == prev[i]);
            assert(suggestible_of(spans).last() == spans.last());
        }
    }
}

/// Every help span carries a suggested replacement.
pub proof fn lemma_help_spans_some(children: Seq<CompilerMessage>)
    ensures
        forall|i: int|
            0 <= i < help_spans_of(children).len() ==> (#[trigger] help_spans_of(children)[i]).suggested_replacement is Some,
    decreases children.len(),
{
    if children.len() > 0 {
        lemma_help_spans_some(children.drop_last());
        let prev = help_spans_of(children.drop_last());
        let tail = if children.last().level@ == "help"@ {
            suggestible_of(children.last().spans@)
        } else {
            Seq::<Span>::empty()
        };
        lemma_suggestible_some(children.last().spans@);
        assert forall|i: int|
            0 <= i < help_spans_of(children).len() implies (#[trigger] help_spans_of(
            children,
        )[i]).suggested_replacement is Some by {
            if i < prev.len() {
                assert(help_spans_of(children)[i] == prev[i]);
            } else {
                assert(help_spans_of(children)[i] == tail[i - prev.len()]);
            }
        }
    }
}

/// Insert a suggestion into a vector sorted ascending by range start,
/// keeping arrival order on ties.
fn insert_suggestion(
    ss: &mut Vec<(core::ops::Range<usize>, String, SuggestionApplicability)>,
    x: (core::ops::Range<usize>, String, SuggestionApplicability),
)
    ensures
        sugs_view(final(ss)@) == insert_sug(sugs_view(old(ss)@), sug_tuple_view(x)),
{
    let ghost orig = sugs_view(ss@);
    let ghost xv = sug_tuple_view(x);
    let mut k: usize = ss.len();
    while k > 0 && ss[k - 1].0.start > x.0.start
        invariant
            orig == sugs_view(ss@),
            k <= ss@.len(),
            forall|j: int| k <= j < ss@.len() ==> (#[trigger] sugs_view(ss@)[j]).0 > xv.0,
            xv == sug_tuple_view(x),
        decreases k,
    {
        proof {
            assert(sugs_view(ss@)[k - 1].0 == ss@[k - 1].0.start as int);
        }
        k = k - 1;
    }
    proof {
        if k > 0 {
            assert(sugs_view(ss@)[k - 1].0 == ss@[k - 1].0.start as int);
        }
        lemma_insert_sug_at(orig, xv, k as int);
    }
    ss.insert(k, x);
    proof {
        assert(sugs_view(ss@) =~= orig.take(k as int) + seq![xv] + orig.skip(k as int));
    }
}

/// The view of one collected suggestion tuple.
pub open spec fn sug_tuple_view(
    t: (core::ops::Range<usize>, String, SuggestionApplicability),
) -> (int, int, Seq<char>, SuggestionApplicability) {
    (t.0.start as int, t.0.end as int, t.1@, t.2)
}

impl CompilerMessage {
    /// Each primary span, paired with the suggestions eligible for it (same
    /// raw text, single fragment), sorted ascending by range start.
    pub fn spans_with_suggestions(&self) -> (r: Vec<SpanAndSuggestions>)
        requires
            forall|k: int|
                0 <= k < help_spans_of(self.children@).len() ==> ((#[trigger] help_spans_of(
                    self.children@,
                )[k]).text@.len() == 1 ==> help_spans_of(self.children@)[k].text@[0].wf()),
        ensures
            r@.len() == primary_of(self.spans@).len(),
            forall|i: int|
                0 <= i < r@.len() ==> span_like(
                    (#[trigger] r@[i]).primary,
                    primary_of(self.spans@)[i],
                ) && sugs_view(r@[i].suggestions@) == sort_sugs(
                    eligible_sugs(
                        help_spans_of(self.children@),
                        raw_text_spec(primary_of(self.spans@)[i].text@),
                    ),
                ),
    {
        let ghost helps_spec = help_spans_of(self.children@);
        let mut prims = self.primary_spans();
        let helps = self.help_items();
        proof {
            lemma_help_spans_some(self.children@);
        }
        let mut r: Vec<SpanAndSuggestions> = Vec::new();
        let ghost prims0 = prims@;
        let ghost done: int = 0;
        while prims.len() > 0
            invariant
                forall|k: int|
                    0 <= k < helps_spec.len() ==> ((#[trigger] helps_spec[k]).text@.len() == 1
                        ==> helps_spec[k].text@[0].wf()),
                forall|k: int|
                    0 <= k < helps_spec.len() ==> (#[trigger] helps_spec[k]).suggested_replacement is Some,
                helps_spec == help_spans_of(self.children@),
                helps@.len() == helps_spec.len(),
                forall|k: int|
                    0 <= k < helps@.len() ==> span_like(#[trigger] helps@[k], helps_spec[k]),
                prims0.len() == primary_of(self.spans@).len(),
                forall|k: int|
                    0 <= k < prims0.len() ==> span_like(
                        #[trigger] prims0[k],
                        primary_of(self.spans@)[k],
                    ),
                r@.len() + prims@.len() == prims0.len(),
                prims@ =~= prims0.skip(r@.len() as int),
                forall|i: int|
                    0 <= i < r@.len() ==> span_like(
                        (#[trigger] r@[i]).primary,
                        primary_of(self.spans@)[i],
                    ) && sugs_view(r@[i].suggestions@) == sort_sugs(
                        eligible_sugs(
                            help_spans_of(self.children@),
                            raw_text_spec(primary_of(self.spans@)[i].text@),
                        ),
                    ),
            decreases prims@.len(),
        {
            let prim = prims.remove(0);
            proof {
                assert(prim == prims0[r@.len() as int]);
                assert(prims@ =~= prims0.skip(r@.len() as int + 1));
            }
            let praw = prim.raw_text();
            let ghost praw_spec = raw_text_spec(
                primary_of(self.spans@)[r@.len() as int].text@,
            );
            proof {
                assert(praw@ == praw_spec);
            }
            let mut sugs: Vec<(core::ops::Range<usize>, String, SuggestionApplicability)> =
                Vec::new();
            let mut j: usize = 0;
            proof {
                assert(sugs_view(sugs@) =~= Seq::<(
                    int,
                    int,
                    Seq<char>,
                    SuggestionApplicability,
                )>::empty());
                assert(helps_spec.subrange(0, 0) =~= Seq::<Span>::empty());
            }
            while j < helps.len()
                invariant
                    forall|k: int|
                        0 <= k < helps_spec.len() ==> ((#[trigger] helps_spec[k]).text@.len() == 1
                            ==> helps_spec[k].text@[0].wf()),
                    forall|k: int|
                        0 <= k < helps_spec.len() ==> (#[trigger] helps_spec[k]).suggested_replacement is Some,
                    helps@.len() == helps_spec.len(),
                    forall|k: int|
                        0 <= k < helps@.len() ==> span_like(#[trigger] helps@[k], helps_spec[k]),
                    j <= helps@.len(),
                    praw@ == praw_spec,
                    sugs_view(sugs@) == sort_sugs(
                        eligible_sugs(helps_spec.subrange(0, j as int), praw_spec),
                    ),
                decreases helps@.len() - j,
            {
                let ghost pre = helps_spec.subrange(0, j as int);
                proof {
                    assert(helps_spec.subrange(0, j as int + 1).drop_last() =~= pre);
                    assert(helps_spec.subrange(0, j as int + 1).last() == helps_spec[j as int]);
                    assert(span_like(helps@[j as int], helps_spec[j as int]));
                }
                let mut eligible = false;
                if helps[j].text.len() == 1 {
                    let hraw = helps[j].raw_text();
                    if crate::operation::str_eq(praw.as_str(), hraw.as_str()) {
                        eligible = true;
                    }
                }
                if eligible {
                    let h = &helps[j];
                    let range = h.text[0].highlighted_span();
                    let rep = match &h.suggested_replacement {
                        Option::Some(s) => s.clone(),
                        Option::None => {
                            proof {
                                assert(false);
                            }
                            String::new()
                        },
                    };
                    let app = match h.suggestion_applicability {
                        Option::Some(a) => a,
                        Option::None => SuggestionApplicability::Unspecified,
                    };
                    proof {
                        assert(sug_tuple_view((range, rep, app)) == sug_of(
                            helps_spec[j as int],
                        ));
                        assert(eligible_sugs(helps_spec.subrange(0, j as int + 1), praw_spec)
                            == eligible_sugs(pre, praw_spec).push(sug_of(helps_spec[j as int])));
                        let pushed = eligible_sugs(pre, praw_spec).push(
                            sug_of(helps_spec[j as int]),
                        );
                        assert(pushed.drop_last() =~= eligible_sugs(pre, praw_spec));
                        assert(sort_sugs(pushed) == insert_sug(
                            sort_sugs(eligible_sugs(pre, praw_spec)),
                            sug_of(helps_spec[j as int]),
                        ));
                    }
                    insert_suggestion(&mut sugs, (range, rep, app));
                } else {
                    proof {
                        assert(eligible_sugs(helps_spec.subrange(0, j as int + 1), praw_spec)
                            == eligible_sugs(pre, praw_spec));
                    }
                }
                j = j + 1;
            }
            proof {
                assert(helps_spec.subrange(0, helps_spec.len() as int) =~= helps_spec);
            }
            r.push(SpanAndSuggestions { primary: prim, suggestions: sugs });
            proof {
                done = done + 1;
            }
        }
        proof {
            assert(r@.len() == prims0.len());
        }
        r
    }
}

} // verus!

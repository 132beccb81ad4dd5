use vstd::prelude::*;
use vstd::utf8::encode_utf8;
use crate::span::Span;

verus! {

/// What a marked span turns into when the store is rendered.
#[derive(Debug)]
pub enum ReplacementValue {
    /// The span disappears.
    Del,
    /// The span is replaced by the source text of another span.
    Span(Span),
    /// The span is replaced by a literal text.
    Str(String),
    /// The span is replaced by the identifier `undefined`.
    Undefined,
}

/// Value equality, with strings compared by their characters.
pub open spec fn same_value(a: ReplacementValue, b: ReplacementValue) -> bool {
    match a {
        ReplacementValue::Del => b is Del,
        ReplacementValue::Span(x) => b is Span && b->Span_0 == x,
        ReplacementValue::Str(x) => b is Str && b->Str_0@ == x@,
        ReplacementValue::Undefined => b is Undefined,
    }
}

impl PartialEq for ReplacementValue {
    fn eq(&self, other: &ReplacementValue) -> (r: bool) {
        match self {
            ReplacementValue::Del => match other {
                ReplacementValue::Del => true,
                _ => false,
            },
            ReplacementValue::Span(x) => match other {
                ReplacementValue::Span(y) => x.start == y.start && x.end == y.end,
                _ => false,
            },
            ReplacementValue::Str(x) => match other {
                ReplacementValue::Str(y) => str_eq(x.as_str(), y.as_str()),
                _ => false,
            },
            ReplacementValue::Undefined => match other {
                ReplacementValue::Undefined => true,
                _ => false,
            },
        }
    }
}

impl vstd::std_specs::cmp::PartialEqSpecImpl for ReplacementValue {
    open spec fn obeys_eq_spec() -> bool {
        true
    }

    open spec fn eq_spec(&self, other: &ReplacementValue) -> bool {
        same_value(*self, *other)
    }
}

impl ReplacementValue {
    /// A copy equal to `self`.
    pub fn copied(&self) -> (r: ReplacementValue)
        ensures
            r == *self,
    {
        match self {
            ReplacementValue::Del => ReplacementValue::Del,
            ReplacementValue::Span(s) => ReplacementValue::Span(*s),
            ReplacementValue::Str(s) => ReplacementValue::Str(s.clone()),
            ReplacementValue::Undefined => ReplacementValue::Undefined,
        }
    }

    /// The text `undefined` becomes `Undefined`; any other text is kept as is.
    pub fn from_str(s: &str) -> (r: ReplacementValue)
        ensures
            s@ == undefined_text() ==> r is Undefined,
            s@ != undefined_text() ==> (r is Str && r->Str_0@ == s@),
    {
        let u = "undefined";
        proof {
            reveal_strlit("undefined");
            assert(u@ =~= undefined_text());
        }
        if str_eq(s, u) {
            ReplacementValue::Undefined
        } else {
            ReplacementValue::Str(s.to_owned())
        }
    }
}

impl ReplacementValue {
    /// The same as `from_str`.
    pub fn from_string(s: &str) -> (r: ReplacementValue)
        ensures
            s@ == undefined_text() ==> r is Undefined,
            s@ != undefined_text() ==> (r is Str && r->Str_0@ == s@),
    {
        ReplacementValue::from_str(s)
    }
}

pub open spec fn undefined_text() -> Seq<char> {
    seq!['u', 'n', 'd', 'e', 'f', 'i', 'n', 'e', 'd']
}

/// Character-wise comparison of two strings.
pub(crate) fn str_eq(a: &str, b: &str) -> (r: bool)
    ensures
        r == (a@ == b@),
{
    let n = a.unicode_len();
    if n != b.unicode_len() {
        return false;
    }
    let mut i: usize = 0;
    while i < n
        invariant
            n == a@.len(),
            n == b@.len(),
            i <= n,
            a@.subrange(0, i as int) == b@.subrange(0, i as int),
        decreases n - i,
    {
        if a.get_char(i) != b.get_char(i) {
            return false;
        }
        assert(a@.subrange(0, i + 1) == a@.subrange(0, i as int).push(a@[i as int]));
        assert(b@.subrange(0, i + 1) == b@.subrange(0, i as int).push(b@[i as int]));
        i = i + 1;
    }
    assert(a@ == a@.subrange(0, n as int));
    assert(b@ == b@.subrange(0, n as int));
    true
}

/// One entry of the store: a span and what it becomes.
#[derive(Debug)]
pub struct Replacement {
    pub span: Span,
    pub value: ReplacementValue,
}

impl Replacement {
    /// A copy equal to `self`.
    pub fn copied(&self) -> (r: Replacement)
        ensures
            r == *self,
    {
        Replacement { span: self.span, value: self.value.copied() }
    }
}

impl PartialEq for Replacement {
    fn eq(&self, other: &Replacement) -> (r: bool) {
        self.span == other.span && self.value == other.value
    }
}

impl vstd::std_specs::cmp::PartialEqSpecImpl for Replacement {
    open spec fn obeys_eq_spec() -> bool {
        true
    }

    open spec fn eq_spec(&self, other: &Replacement) -> bool {
        self.span == other.span && same_value(self.value, other.value)
    }
}

/// Entries sorted by position, none of them overlapping another.
pub open spec fn sorted_disjoint(s: Seq<Replacement>) -> bool {
    &&& forall|i: int| 0 <= i < s.len() ==> (#[trigger] s[i]).span.valid()
    &&& forall|i: int, j: int|
        0 <= i < j < s.len() ==> {
            &&& (#[trigger] s[i]).span.end <= (#[trigger] s[j]).span.start
            &&& !s[i].span.spec_contains(s[j].span)
            &&& !s[j].span.spec_contains(s[i].span)
        }
}

/// The store turns a new entry down: an identical entry is there already, a
/// wider entry already covers its span, or an entry crosses its span.
pub open spec fn rejects(s: Seq<Replacement>, new: Replacement) -> bool {
    exists|i: int|
        0 <= i < s.len() && {
            ||| ((#[trigger] s[i]).span == new.span && same_value(s[i].value, new.value))
            ||| (s[i].span.spec_contains(new.span) && s[i].span != new.span)
            ||| s[i].span.spec_crosses(new.span)
        }
}

/// An existing entry that a new one leaves in place: its span is not inside
/// the new span.
pub open spec fn kept_by(new: Span, e: Replacement) -> bool {
    !new.spec_contains(e.span)
}

pub open spec fn goes_before(new: Span) -> spec_fn(Replacement) -> bool {
    |e: Replacement| kept_by(new, e) && e.span.end <= new.start
}

pub open spec fn goes_after(new: Span) -> spec_fn(Replacement) -> bool {
    |e: Replacement| kept_by(new, e) && !(e.span.end <= new.start)
}

/// The kept entries that end before the new span starts.
pub open spec fn kept_before(s: Seq<Replacement>, new: Span) -> Seq<Replacement> {
    s.filter(goes_before(new))
}

/// The kept entries that lie after the new span.
pub open spec fn kept_after(s: Seq<Replacement>, new: Span) -> Seq<Replacement> {
    s.filter(goes_after(new))
}

/// The entries after adding `new` to `s`.
pub open spec fn added(s: Seq<Replacement>, new: Replacement) -> Seq<Replacement> {
    if rejects(s, new) {
        s
    } else {
        kept_before(s, new.span).push(new) + kept_after(s, new.span)
    }
}

/// The entries after adding each of `items` in turn to `s`.
pub open spec fn added_all(s: Seq<Replacement>, items: Seq<Replacement>) -> Seq<Replacement>
    decreases items.len(),
{
    if items.len() == 0 {
        s
    } else {
        added(added_all(s, items.drop_last()), items.last())
    }
}

/// The first entry that contains `span` deletes it.
pub open spec fn deleted(s: Seq<Replacement>, span: Span) -> bool {
    exists|i: int| first_cover(s, span, i) && s[i].value is Del
}

/// An entry fits in a text of `len` bytes.
pub open spec fn entry_fits(e: Replacement, len: int) -> bool {
    &&& e.span.end <= len
    &&& (e.value matches ReplacementValue::Span(t) ==> t.valid() && t.end <= len)
}

proof fn lemma_filter_fits(s: Seq<Replacement>, pred: spec_fn(Replacement) -> bool, len: int)
    requires
        fits(s, len),
    ensures
        fits(s.filter(pred), len),
    decreases s.len(),
{
    reveal(Seq::filter);
    if s.len() > 0 {
        lemma_filter_fits(s.drop_last(), pred, len);
        assert(entry_fits(s[s.len() - 1], len));
    }
}

/// Adding an entry that fits keeps every entry within the text.
pub proof fn lemma_added_fits(s: Seq<Replacement>, new: Replacement, len: int)
    requires
        fits(s, len),
        entry_fits(new, len),
    ensures
        fits(added(s, new), len),
{
    if !rejects(s, new) {
        lemma_filter_fits(s, goes_before(new.span), len);
        lemma_filter_fits(s, goes_after(new.span), len);
        let b = kept_before(s, new.span).push(new);
        let a = kept_after(s, new.span);
        assert forall|i: int| 0 <= i < (b + a).len() implies entry_fits(#[trigger] (b + a)[i], len) by {
            if i < b.len() - 1 {
                assert((b + a)[i] == kept_before(s, new.span)[i]);
            } else if i >= b.len() {
                assert((b + a)[i] == a[i - b.len()]);
            }
        }
    }
}

/// Every span that `s` covers, `f` covers too.
pub open spec fn keeps_cover(s: Seq<Replacement>, f: Seq<Replacement>) -> bool {
    forall|x: Span| #[trigger] covered(s, x) ==> covered(f, x)
}

/// Adding an entry never uncovers a span: an entry that the new one does not
/// take in stays, and the new one covers what it takes in.
pub proof fn lemma_added_keeps_cover(s: Seq<Replacement>, new: Replacement)
    ensures
        keeps_cover(s, added(s, new)),
{
    assert forall|x: Span| #[trigger] covered(s, x) implies covered(added(s, new), x) by {
        if !rejects(s, new) {
            let i = choose|i: int| 0 <= i < s.len() && (#[trigger] s[i]).span.spec_contains(x);
            let kb = kept_before(s, new.span);
            let b = kb.push(new);
            let a = kept_after(s, new.span);
            let t = b + a;
            assert(t == added(s, new));
            if new.span.spec_contains(s[i].span) {
                assert(t[b.len() - 1] == new);
            } else if s[i].span.end <= new.span.start {
                s.lemma_filter_contains(goes_before(new.span), i);
                let j = choose|j: int| 0 <= j < kb.len() && kb[j] == s[i];
                assert(t[j] == s[i]);
            } else {
                s.lemma_filter_contains(goes_after(new.span), i);
                let j = choose|j: int| 0 <= j < a.len() && a[j] == s[i];
                assert(t[b.len() + j] == s[i]);
            }
        }
    }
}

/// Deletions of the given spans, in order.
pub open spec fn deletions(spans: Seq<Span>) -> Seq<Replacement> {
    spans.map_values(|s: Span| Replacement { span: s, value: ReplacementValue::Del })
}

/// Entry `i` is the first whose span contains `span`.
pub open spec fn first_cover(s: Seq<Replacement>, span: Span, i: int) -> bool {
    &&& 0 <= i < s.len()
    &&& s[i].span.spec_contains(span)
    &&& forall|j: int| 0 <= j < i ==> !(#[trigger] s[j]).span.spec_contains(span)
}

/// Some entry's span contains `span`.
pub open spec fn covered(s: Seq<Replacement>, span: Span) -> bool {
    exists|i: int| 0 <= i < s.len() && (#[trigger] s[i]).span.spec_contains(span)
}

/// The bytes that an entry's value stands for.
pub open spec fn chunk(v: ReplacementValue, text: Seq<u8>) -> Seq<u8> {
    match v {
        ReplacementValue::Del => Seq::empty(),
        ReplacementValue::Span(s) => text.subrange(s.start as int, s.end as int),
        ReplacementValue::Str(s) => encode_utf8(s@),
        ReplacementValue::Undefined => encode_utf8(undefined_text()),
    }
}

/// Where the text after the first `k` entries resumes.
pub open spec fn resume_at(s: Seq<Replacement>, k: int) -> int {
    if k <= 0 {
        0
    } else {
        s[k - 1].span.end as int
    }
}

/// The output for the first `k` entries: each preceded by the untouched gap
/// before it.
pub open spec fn rendered_prefix(s: Seq<Replacement>, text: Seq<u8>, k: int) -> Seq<u8>
    decreases k,
{
    if k <= 0 {
        Seq::empty()
    } else {
        rendered_prefix(s, text, k - 1) + text.subrange(
            resume_at(s, k - 1),
            s[k - 1].span.start as int,
        ) + chunk(s[k - 1].value, text)
    }
}

/// The rendered text: gaps copied verbatim, each entry substituted.
pub open spec fn render(s: Seq<Replacement>, text: Seq<u8>) -> Seq<u8> {
    rendered_prefix(s, text, s.len() as int) + text.subrange(
        resume_at(s, s.len() as int),
        text.len() as int,
    )
}

/// Rendering is a function of the entries and the text alone: two stores
/// that hold the same entries render the same text to the same bytes, so
/// rendering twice gives the same result.
pub proof fn render_is_pure(a: &Replacements, b: &Replacements, text: Seq<u8>)
    requires
        a.list@ == b.list@,
    ensures
        render(a.list@, text) == render(b.list@, text),
{
}

/// Every span of the store, and every span that a value points at, lies
/// inside a text of `len` bytes.
pub open spec fn fits(s: Seq<Replacement>, len: int) -> bool {
    forall|i: int| 0 <= i < s.len() ==> entry_fits(#[trigger] s[i], len)
}

/// Appends `text[from..to]` to `out`.
fn push_range(out: &mut Vec<u8>, text: &[u8], from: usize, to: usize)
    requires
        from <= to <= text@.len(),
    ensures
        final(out)@ == old(out)@ + text@.subrange(from as int, to as int),
{
    let mut k: usize = from;
    while k < to
        invariant
            from <= k <= to <= text@.len(),
            out@ == old(out)@ + text@.subrange(from as int, k as int),
        decreases to - k,
    {
        out.push(text[k]);
        assert(text@.subrange(from as int, k + 1) == text@.subrange(from as int, k as int).push(
            text@[k as int],
        ));
        k = k + 1;
    }
}

/// The same entries in the same order, texts compared by their characters:
/// the two render alike.
pub open spec fn same_entries(a: Seq<Replacement>, b: Seq<Replacement>) -> bool {
    &&& a.len() == b.len()
    &&& forall|i: int|
        0 <= i < a.len() ==> (#[trigger] a[i]).span == b[i].span && same_value(a[i].value, b[i].value)
}

/// A copy of the entries, equal to them.
pub fn copy_entries(v: &Vec<Replacement>) -> (r: Vec<Replacement>)
    ensures
        r@ == v@,
{
    let mut out: Vec<Replacement> = Vec::new();
    let n = v.len();
    let mut i: usize = 0;
    while i < n
        invariant
            n == v@.len(),
            i <= n,
            out@ == v@.subrange(0, i as int),
        decreases n - i,
    {
        out.push(v[i].copied());
        assert(v@.subrange(0, i + 1) == v@.subrange(0, i as int).push(v@[i as int]));
        i = i + 1;
    }
    assert(v@.subrange(0, n as int) =~= v@);
    out
}

/// Whether the two lists hold the same entries, texts compared by their
/// characters.
pub fn entries_match(a: &Vec<Replacement>, b: &Vec<Replacement>) -> (r: bool)
    ensures
        r == same_entries(a@, b@),
{
    let n = a.len();
    if n != b.len() {
        return false;
    }
    let mut i: usize = 0;
    while i < n
        invariant
            n == a@.len(),
            n == b@.len(),
            i <= n,
            forall|k: int|
                0 <= k < i ==> (#[trigger] a@[k]).span == b@[k].span && same_value(a@[k].value, b@[k].value),
        decreases n - i,
    {
        if !(a[i] == b[i]) {
            return false;
        }
        i = i + 1;
    }
    true
}

/// Relies on `String::from_utf8_lossy`: a valid UTF-8 byte sequence is taken
/// over unchanged.
#[verifier::external_body]
fn string_from_bytes(b: &Vec<u8>) -> (r: String)
    ensures
        vstd::utf8::valid_utf8(b@) ==> encode_utf8(r@) == b@,
{
    String::from_utf8_lossy(b.as_slice()).into_owned()
}

/// An ordered store of non-overlapping span edits.
pub struct Replacements {
    pub list: Vec<Replacement>,
}

impl Replacements {
    pub open spec fn wf(&self) -> bool {
        sorted_disjoint(self.list@)
    }

    pub fn default() -> (r: Replacements)
        ensures
            r.wf(),
            r.list@.len() == 0,
    {
        Replacements { list: Vec::new() }
    }

    /// A store that holds `init`, added one after another.
    pub fn new(init: Vec<Replacement>) -> (r: Replacements)
        requires
            forall|i: int| 0 <= i < init@.len() ==> (#[trigger] init@[i]).span.valid(),
        ensures
            r.wf(),
            r.list@ == added_all(Seq::empty(), init@),
    {
        let mut res = Replacements::default();
        let n = init.len();
        let mut i: usize = 0;
        while i < n
            invariant
                n == init@.len(),
                i <= n,
                forall|k: int| 0 <= k < init@.len() ==> (#[trigger] init@[k]).span.valid(),
                res.wf(),
                res.list@ == added_all(Seq::empty(), init@.subrange(0, i as int)),
            decreases n - i,
        {
            res.add(init[i].copied());
            assert(init@.subrange(0, i + 1).drop_last() =~= init@.subrange(0, i as int));
            i = i + 1;
        }
        assert(init@.subrange(0, n as int) =~= init@);
        res
    }

    /// A store that deletes each of `spans`, added one after another.
    pub fn from_spans(spans: Vec<Span>) -> (r: Replacements)
        requires
            forall|i: int| 0 <= i < spans@.len() ==> (#[trigger] spans@[i]).valid(),
        ensures
            r.wf(),
            r.list@ == added_all(Seq::empty(), deletions(spans@)),
    {
        let mut init: Vec<Replacement> = Vec::new();
        let n = spans.len();
        let mut i: usize = 0;
        while i < n
            invariant
                n == spans@.len(),
                i <= n,
                init@ == deletions(spans@.subrange(0, i as int)),
            decreases n - i,
        {
            init.push(Replacement { span: spans[i], value: ReplacementValue::Del });
            assert(deletions(spans@.subrange(0, i + 1)) =~= deletions(spans@.subrange(0, i as int)).push(
                Replacement { span: spans@[i as int], value: ReplacementValue::Del },
            ));
            i = i + 1;
        }
        assert(spans@.subrange(0, n as int) =~= spans@);
        Replacements::new(init)
    }

    /// Marks `span` for deletion; says whether the store changed.
    pub fn add_deletion(&mut self, span: Span) -> (r: bool)
        requires
            old(self).wf(),
            span.valid(),
        ensures
            final(self).wf(),
            r == !rejects(old(self).list@, Replacement { span, value: ReplacementValue::Del }),
            final(self).list@ == added(old(self).list@, Replacement { span, value: ReplacementValue::Del }),
    {
        self.add_replacement(span, ReplacementValue::Del)
    }

    /// Records that `span` becomes `value`; says whether the store changed.
    pub fn add_replacement(&mut self, span: Span, value: ReplacementValue) -> (r: bool)
        requires
            old(self).wf(),
            span.valid(),
        ensures
            final(self).wf(),
            r == !rejects(old(self).list@, Replacement { span, value }),
            final(self).list@ == added(old(self).list@, Replacement { span, value }),
    {
        self.add(Replacement { span, value })
    }

    /// The first entry whose span contains `span`, if any.
    pub fn get(&self, span: Span) -> (r: Option<&Replacement>)
        ensures
            r is None <==> !covered(self.list@, span),
            r matches Some(e) ==> exists|i: int| first_cover(self.list@, span, i) && self.list@[i] == *e,
    {
        let n = self.list.len();
        let mut i: usize = 0;
        while i < n
            invariant
                n == self.list@.len(),
                i <= n,
                forall|j: int| 0 <= j < i ==> !(#[trigger] self.list@[j]).span.spec_contains(span),
            decreases n - i,
        {
            if self.list[i].span.contains(&span) {
                assert(first_cover(self.list@, span, i as int));
                return Some(&self.list[i]);
            }
            i = i + 1;
        }
        None
    }

    /// Whether an entry's span contains `span`.
    pub fn has(&self, span: Span) -> (r: bool)
        ensures
            r == covered(self.list@, span),
    {
        self.get(span).is_some()
    }

    /// Whether the first entry that contains `span` deletes it.
    pub fn is_deleted(&self, span: Span) -> (r: bool)
        ensures
            r == deleted(self.list@, span),
    {
        match self.get(span) {
            Some(e) => match e.value {
                ReplacementValue::Del => true,
                _ => false,
            },
            None => false,
        }
    }

    /// The entries written over `text`, as bytes: the gaps between entries are
    /// copied, and each entry gives its value's bytes.
    pub fn apply_bytes(&self, text: &[u8]) -> (r: Vec<u8>)
        requires
            self.wf(),
            fits(self.list@, text@.len() as int),
        ensures
            r@ == render(self.list@, text@),
    {
        let mut out: Vec<u8> = Vec::new();
        let mut last: usize = 0;
        let n = self.list.len();
        let mut i: usize = 0;
        while i < n
            invariant
                n == self.list@.len(),
                self.wf(),
                fits(self.list@, text@.len() as int),
                i <= n,
                last as int == resume_at(self.list@, i as int),
                last <= text@.len(),
                i < n ==> last <= self.list@[i as int].span.start,
                out@ == rendered_prefix(self.list@, text@, i as int),
            decreases n - i,
        {
            let e = &self.list[i];
            let start = e.span.start as usize;
            let end = e.span.end as usize;
            push_range(&mut out, text, last, start);
            match &e.value {
                ReplacementValue::Del => {},
                ReplacementValue::Span(t) => {
                    push_range(&mut out, text, t.start as usize, t.end as usize);
                },
                ReplacementValue::Str(s) => {
                    let b = s.as_str().as_bytes();
                    push_range(&mut out, b, 0, b.len());
                    assert(b@.subrange(0, b@.len() as int) == b@);
                },
                ReplacementValue::Undefined => {
                    let u = "undefined";
                    proof {
                        reveal_strlit("undefined");
                        assert(u@ =~= undefined_text());
                    }
                    let b = u.as_bytes();
                    push_range(&mut out, b, 0, b.len());
                    assert(b@.subrange(0, b@.len() as int) == b@);
                },
            }
            last = end;
            i = i + 1;
            assert(i < n ==> self.list@[i - 1].span.end <= self.list@[i as int].span.start);
        }
        push_range(&mut out, text, last, text.len());
        out
    }

    /// The entries written over `text`. Where the rendered bytes are valid
    /// UTF-8, the result holds exactly them.
    pub fn apply(&self, text: &str) -> (r: String)
        requires
            self.wf(),
            fits(self.list@, encode_utf8(text@).len() as int),
        ensures
            vstd::utf8::valid_utf8(render(self.list@, encode_utf8(text@))) ==> encode_utf8(r@)
                == render(self.list@, encode_utf8(text@)),
    {
        let b = self.apply_bytes(text.as_bytes());
        string_from_bytes(&b)
    }

    /// Records that `new.span` becomes `new.value`, and says whether the store
    /// changed. An identical entry, a wider entry that already covers the span,
    /// or an entry that crosses it turns the new one down. Otherwise the entries
    /// inside the new span (one with the same span included) give way to it,
    /// and it takes its place in order.
    pub fn add(&mut self, new: Replacement) -> (r: bool)
        requires
            old(self).wf(),
            new.span.valid(),
        ensures
            final(self).wf(),
            r == !rejects(old(self).list@, new),
            !r ==> final(self).list@ == old(self).list@,
            r ==> final(self).list@ == kept_before(old(self).list@, new.span).push(new)
                + kept_after(old(self).list@, new.span),
            final(self).list@ == added(old(self).list@, new),
    {
        let n = self.list.len();
        let mut i: usize = 0;
        while i < n
            invariant
                n == self.list@.len(),
                self.list@ == old(self).list@,
                sorted_disjoint(self.list@),
                i <= n,
                forall|k: int|
                    0 <= k < i ==> !{
                        ||| ((#[trigger] self.list@[k]).span == new.span && same_value(
                            self.list@[k].value,
                            new.value,
                        ))
                        ||| (self.list@[k].span.spec_contains(new.span) && self.list@[k].span
                            != new.span)
                        ||| self.list@[k].span.spec_crosses(new.span)
                    },
            decreases n - i,
        {
            let e = &self.list[i];
            let same_span = e.span == new.span;
            if same_span && e.value == new.value {
                return false;
            }
            if !same_span && e.span.contains(&new.span) {
                return false;
            }
            if e.span.crosses(&new.span) {
                return false;
            }
            i = i + 1;
        }
        let ghost s = self.list@;
        let mut before: Vec<Replacement> = Vec::new();
        let mut after: Vec<Replacement> = Vec::new();
        let mut j: usize = 0;
        while j < n
            invariant
                n == s.len(),
                self.list@ == s,
                sorted_disjoint(s),
                new.span.valid(),
                !rejects(s, new),
                j <= n,
                before@ == kept_before(s.subrange(0, j as int), new.span),
                after@ == kept_after(s.subrange(0, j as int), new.span),
                sorted_disjoint(before@),
                sorted_disjoint(after@),
                forall|a: int|
                    0 <= a < before@.len() ==> {
                        &&& (#[trigger] before@[a]).span.end <= new.span.start
                        &&& kept_by(new.span, before@[a])
                        &&& !before@[a].span.spec_contains(new.span)
                    },
                forall|a: int|
                    0 <= a < after@.len() ==> {
                        &&& new.span.end <= (#[trigger] after@[a]).span.start
                        &&& kept_by(new.span, after@[a])
                        &&& !after@[a].span.spec_contains(new.span)
                    },
                forall|a: int, m: int|
                    0 <= a < before@.len() && j <= m < n ==> {
                        &&& (#[trigger] before@[a]).span.end <= (#[trigger] s[m]).span.start
                        &&& !before@[a].span.spec_contains(s[m].span)
                        &&& !s[m].span.spec_contains(before@[a].span)
                    },
                forall|a: int, m: int|
                    0 <= a < after@.len() && j <= m < n ==> {
                        &&& (#[trigger] after@[a]).span.end <= (#[trigger] s[m]).span.start
                        &&& !after@[a].span.spec_contains(s[m].span)
                        &&& !s[m].span.spec_contains(after@[a].span)
                    },
            decreases n - j,
        {
            proof {
                assert(!{
                    ||| (s[j as int].span == new.span && same_value(s[j as int].value, new.value))
                    ||| (s[j as int].span.spec_contains(new.span) && s[j as int].span != new.span)
                    ||| s[j as int].span.spec_crosses(new.span)
                });
            }
            let e = &self.list[j];
            if !new.span.contains(&e.span) {
                if e.span.end <= new.span.start {
                    before.push(e.copied());
                } else {
                    after.push(e.copied());
                }
            }
            proof {
                reveal(Seq::filter);
                assert(s.subrange(0, j + 1).drop_last() =~= s.subrange(0, j as int));
                assert(s.subrange(0, j + 1).last() == s[j as int]);
                let fb = goes_before(new.span);
                let fa = goes_after(new.span);
                let prev = s.subrange(0, j as int);
                let cur = s.subrange(0, j + 1);
                assert(cur.len() > 0);
                assert(cur.filter(fb) == (if fb(cur.last()) {
                    cur.drop_last().filter(fb).push(cur.last())
                } else {
                    cur.drop_last().filter(fb)
                }));
                assert(cur.filter(fa) == (if fa(cur.last()) {
                    cur.drop_last().filter(fa).push(cur.last())
                } else {
                    cur.drop_last().filter(fa)
                }));
                assert(before@ == cur.filter(fb));
                assert(after@ == cur.filter(fa));
            }
            j = j + 1;
        }
        proof {
            assert(s.subrange(0, n as int) =~= s);
        }
        let ghost b0 = before@;
        let ghost a0 = after@;
        before.push(new);
        before.append(&mut after);
        proof {
            let t = before@;
            assert(t == b0.push(new) + a0);
            assert forall|x: int, y: int| 0 <= x < y < t.len() implies {
                &&& (#[trigger] t[x]).span.end <= (#[trigger] t[y]).span.start
                &&& !t[x].span.spec_contains(t[y].span)
                &&& !t[y].span.spec_contains(t[x].span)
            } by {
                let bl = b0.len() as int;
                if y < bl {
                    assert(t[x] == b0[x] && t[y] == b0[y]);
                } else if y == bl {
                    assert(t[x] == b0[x] && t[y] == new);
                } else if x > bl {
                    assert(t[x] == a0[x - bl - 1] && t[y] == a0[y - bl - 1]);
                } else if x == bl {
                    assert(t[x] == new && t[y] == a0[y - bl - 1]);
                } else {
                    assert(t[x] == b0[x] && t[y] == a0[y - bl - 1]);
                }
            }
        }
        self.list = before;
        true
    }
}

} // verus!

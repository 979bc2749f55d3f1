//! The parts of a glob, and how a file name is matched against one segment of it.
use crate::glob::whole::law_either_end;
use crate::grapheme::{folds, none_empty, Grapheme};
use crate::normal::Normalized;
use vstd::prelude::*;
use vstd::slice::slice_subrange;

verus! {

/// What one place of a segment matches.
#[derive(Debug)]
pub enum Pattern {
    /// Clusters whose normalized forms, put together, are this text.
    Lit(Normalized<Vec<char>>),
    /// This many clusters, whatever they are. At least one.
    AnyGraphemes(usize),
}

/// Patterns that follow one another without a gap.
#[derive(Debug)]
pub struct FixedStr {
    pub patterns: Vec<Pattern>,
}

/// One segment of a path: what a name starts with, then what follows with gaps of any length in
/// between. The last of those is what the name ends with.
#[derive(Debug)]
pub struct Segment {
    pub base_str: FixedStr,
    pub floating_strs: Vec<FixedStr>,
}

#[verifier::ext_equal]
pub enum PatternView {
    Lit(Seq<char>),
    AnyGraphemes(nat),
}

#[verifier::ext_equal]
pub struct SegmentView {
    pub base: Seq<PatternView>,
    pub floating: Seq<Seq<PatternView>>,
}

impl View for Pattern {
    type V = PatternView;

    open spec fn view(&self) -> PatternView {
        match self {
            Pattern::Lit(lit) => PatternView::Lit(lit.0@),
            Pattern::AnyGraphemes(n) => PatternView::AnyGraphemes(*n as nat),
        }
    }
}

impl View for FixedStr {
    type V = Seq<PatternView>;

    open spec fn view(&self) -> Seq<PatternView> {
        self.patterns@.map_values(|p: Pattern| p@)
    }
}

impl View for Segment {
    type V = SegmentView;

    open spec fn view(&self) -> SegmentView {
        SegmentView { base: self.base_str@, floating: str_patterns(self.floating_strs@) }
    }
}

/// The patterns of each of a list of fixed strings.
pub open spec fn str_patterns(v: Seq<FixedStr>) -> Seq<Seq<PatternView>> {
    v.map_values(|s: FixedStr| s@)
}

/// The least number from `k` on of leading clusters that spell `lit`.
pub open spec fn spelled_from(lit: Seq<char>, text: Seq<Seq<char>>, k: nat) -> Option<nat>
    decreases text.len() + 1 - k,
{
    if k > text.len() {
        None
    } else if text.take(k as int).flatten() == lit {
        Some(k)
    } else {
        spelled_from(lit, text, k + 1)
    }
}

/// The number of clusters that a pattern takes off the start of `text`: for a literal the least
/// number, at least one, that spells it.
pub open spec fn pattern_len(pattern: PatternView, text: Seq<Seq<char>>) -> Option<nat> {
    match pattern {
        PatternView::Lit(lit) => spelled_from(lit, text, 1),
        PatternView::AnyGraphemes(n) => if n <= text.len() {
            Some(n)
        } else {
            None
        },
    }
}

/// The number of clusters that the patterns, one after another, take off the start of `text`.
pub open spec fn prefix_len(patterns: Seq<PatternView>, text: Seq<Seq<char>>) -> Option<nat>
    decreases patterns.len(),
{
    if patterns.len() == 0 {
        Some(0)
    } else {
        match pattern_len(patterns[0], text) {
            None => None,
            Some(k) => match prefix_len(patterns.skip(1), text.skip(k as int)) {
                None => None,
                Some(n) => Some(k + n),
            },
        }
    }
}

/// As `spelled_from`, for a text that is given from its last cluster to its first.
pub open spec fn rev_spelled_from(lit: Seq<char>, rev: Seq<Seq<char>>, k: nat) -> Option<nat>
    decreases rev.len() + 1 - k,
{
    if k > rev.len() {
        None
    } else if rev.take(k as int).reverse().flatten() == lit {
        Some(k)
    } else {
        rev_spelled_from(lit, rev, k + 1)
    }
}

/// As `pattern_len`, for the end of a text that is given from its last cluster to its first.
pub open spec fn rev_pattern_len(pattern: PatternView, rev: Seq<Seq<char>>) -> Option<nat> {
    match pattern {
        PatternView::Lit(lit) => rev_spelled_from(lit, rev, 1),
        PatternView::AnyGraphemes(n) => if n <= rev.len() {
            Some(n)
        } else {
            None
        },
    }
}

/// The number of clusters that the patterns, the last one first, take off the end of a text that is
/// given from its last cluster to its first.
pub open spec fn suffix_len(patterns: Seq<PatternView>, rev: Seq<Seq<char>>) -> Option<nat>
    decreases patterns.len(),
{
    if patterns.len() == 0 {
        Some(0)
    } else {
        match rev_pattern_len(patterns.last(), rev) {
            None => None,
            Some(k) => match suffix_len(patterns.drop_last(), rev.skip(k as int)) {
                None => None,
                Some(n) => Some(k + n),
            },
        }
    }
}

pub proof fn lemma_spelled_from(lit: Seq<char>, text: Seq<Seq<char>>, k: nat)
    ensures
        match spelled_from(lit, text, k) {
            Some(n) => {
                &&& k <= n <= text.len()
                &&& text.take(n as int).flatten() == lit
                &&& forall|j: nat| k <= j < n ==> #[trigger] text.take(j as int).flatten() != lit
            },
            None => forall|j: nat|
                k <= j <= text.len() ==> #[trigger] text.take(j as int).flatten() != lit,
        },
    decreases text.len() + 1 - k,
{
    if k <= text.len() && text.take(k as int).flatten() != lit {
        lemma_spelled_from(lit, text, k + 1);
    }
}

pub proof fn lemma_rev_spelled_from(lit: Seq<char>, rev: Seq<Seq<char>>, k: nat)
    ensures
        match rev_spelled_from(lit, rev, k) {
            Some(n) => {
                &&& k <= n <= rev.len()
                &&& rev.take(n as int).reverse().flatten() == lit
                &&& forall|j: nat|
                    k <= j < n ==> #[trigger] rev.take(j as int).reverse().flatten() != lit
            },
            None => forall|j: nat|
                k <= j <= rev.len() ==> #[trigger] rev.take(j as int).reverse().flatten() != lit,
        },
    decreases rev.len() + 1 - k,
{
    if k <= rev.len() && rev.take(k as int).reverse().flatten() != lit {
        lemma_rev_spelled_from(lit, rev, k + 1);
    }
}

/// A longer stretch of clusters spells a text that starts with what a shorter one spells.
proof fn lemma_take_flatten(text: Seq<Seq<char>>, i: int, j: int)
    requires
        0 <= i <= j <= text.len(),
    ensures
        text.take(j).flatten() == text.take(i).flatten() + text.subrange(i, j).flatten(),
{
    assert(text.take(j) == text.take(i) + text.subrange(i, j));
    vstd::seq_lib::lemma_flatten_concat(text.take(i), text.subrange(i, j));
}

proof fn lemma_rev_take_flatten(rev: Seq<Seq<char>>, i: int, j: int)
    requires
        0 <= i <= j <= rev.len(),
    ensures
        rev.take(j).reverse().flatten() == rev.subrange(i, j).reverse().flatten() + rev.take(
            i,
        ).reverse().flatten(),
{
    assert(rev.take(j).reverse() == rev.subrange(i, j).reverse() + rev.take(i).reverse());
    vstd::seq_lib::lemma_flatten_concat(rev.subrange(i, j).reverse(), rev.take(i).reverse());
}

/// Takes clusters off the start of `graphemes` until they spell `lit`, and returns how many.
fn lit_prefix(lit: &Normalized<Vec<char>>, graphemes: &[Grapheme]) -> (r: Option<usize>)
    ensures
        match r {
            Some(k) => spelled_from(lit.0@, folds(graphemes@), 1) == Some(k as nat),
            None => spelled_from(lit.0@, folds(graphemes@), 1) is None,
        },
{
    let ghost text = folds(graphemes@);
    let ghost full = lit.0@;
    let mut rest = lit.as_deref();
    let mut k: usize = 0;
    proof {
        lemma_spelled_from(full, text, 1);
        assert(text.take(0).flatten() == Seq::<char>::empty());
    }
    while k < graphemes.len()
        invariant
            text == folds(graphemes@),
            full == lit.0@,
            k <= graphemes@.len(),
            full == text.take(k as int).flatten() + rest.0@,
            forall|j: nat| 1 <= j <= k ==> #[trigger] text.take(j as int).flatten() != full,
            match spelled_from(full, text, 1) {
                Some(n) => {
                    &&& 1 <= n <= text.len()
                    &&& text.take(n as int).flatten() == full
                    &&& forall|j: nat|
                        1 <= j < n ==> #[trigger] text.take(j as int).flatten() != full
                },
                None => forall|j: nat|
                    1 <= j <= text.len() ==> #[trigger] text.take(j as int).flatten() != full,
            },
        decreases graphemes@.len() - k,
    {
        let ghost left = rest.0@;
        let folded = graphemes[k].folded.as_deref();
        proof {
            assert(text[k as int] == folded.0@);
            lemma_take_flatten(text, k as int, k + 1);
            assert(text.subrange(k as int, k + 1) == seq![folded.0@]);
            assert(seq![folded.0@].flatten() == folded.0@) by {
                seq![folded.0@].lemma_flatten_one_element();
            }
        }
        match rest.strip_prefix(folded) {
            None => {
                proof {
                    if let Some(n) = spelled_from(full, text, 1) {
                        assert(n > k);
                        lemma_take_flatten(text, k + 1, n as int);
                        let tail = text.subrange(k + 1, n as int).flatten();
                        assert(full == text.take(k as int).flatten() + folded.0@ + tail);
                        assert(left =~= folded.0@ + tail) by {
                            let head = text.take(k as int).flatten();
                            assert(left =~= full.skip(head.len() as int));
                            assert((folded.0@ + tail) =~= full.skip(head.len() as int));
                        }
                        assert(folded.0@.is_prefix_of(left));
                    }
                }
                return None;
            },
            Some(r) => {
                rest = r;
            },
        }
        k += 1;
        assert(full =~= text.take(k as int).flatten() + rest.0@);
        if rest.is_empty() {
            assert(text.take(k as int).flatten() =~= full);
            return Some(k);
        }
        assert(text.take(k as int).flatten().len() < full.len());
    }
    None
}

/// Takes clusters off the end of a text, given from the last to the first, until they spell `lit`,
/// and returns how many.
fn lit_suffix(lit: &Normalized<Vec<char>>, rev: &[Grapheme]) -> (r: Option<usize>)
    ensures
        match r {
            Some(k) => rev_spelled_from(lit.0@, folds(rev@), 1) == Some(k as nat),
            None => rev_spelled_from(lit.0@, folds(rev@), 1) is None,
        },
{
    let ghost text = folds(rev@);
    let ghost full = lit.0@;
    let mut rest = lit.as_deref();
    let mut k: usize = 0;
    proof {
        lemma_rev_spelled_from(full, text, 1);
        assert(text.take(0).reverse() =~= Seq::<Seq<char>>::empty());
        assert(text.take(0).reverse().flatten() == Seq::<char>::empty());
    }
    while k < rev.len()
        invariant
            text == folds(rev@),
            full == lit.0@,
            k <= rev@.len(),
            full == rest.0@ + text.take(k as int).reverse().flatten(),
            forall|j: nat| 1 <= j <= k ==> #[trigger] text.take(j as int).reverse().flatten() != full,
            match rev_spelled_from(full, text, 1) {
                Some(n) => {
                    &&& 1 <= n <= text.len()
                    &&& text.take(n as int).reverse().flatten() == full
                    &&& forall|j: nat|
                        1 <= j < n ==> #[trigger] text.take(j as int).reverse().flatten() != full
                },
                None => forall|j: nat|
                    1 <= j <= text.len() ==> #[trigger] text.take(j as int).reverse().flatten()
                        != full,
            },
        decreases rev@.len() - k,
    {
        let ghost left = rest.0@;
        let folded = rev[k].folded.as_deref();
        let ghost part = folded.0@;
        proof {
            assert(text[k as int] == part);
            lemma_rev_take_flatten(text, k as int, k + 1);
            assert(text.subrange(k as int, k + 1).reverse() == seq![part]);
            assert(seq![part].flatten() == part) by {
                seq![part].lemma_flatten_one_element();
            }
        }
        match rest.strip_suffix(folded) {
            None => {
                proof {
                    if let Some(n) = rev_spelled_from(full, text, 1) {
                        assert(n > k);
                        lemma_rev_take_flatten(text, k + 1, n as int);
                        let head = text.subrange(k + 1, n as int).reverse().flatten();
                        let tail = text.take(k as int).reverse().flatten();
                        assert(full == head + (part + tail));
                        assert(left =~= head + part) by {
                            assert(left =~= full.take(full.len() - tail.len()));
                            assert((head + part) =~= full.take(full.len() - tail.len()));
                        }
                        assert(part.is_suffix_of(left));
                    }
                }
                return None;
            },
            Some(r) => {
                rest = r;
            },
        }
        k += 1;
        assert(full =~= rest.0@ + text.take(k as int).reverse().flatten());
        if rest.is_empty() {
            assert(text.take(k as int).reverse().flatten() =~= full);
            return Some(k);
        }
        assert(text.take(k as int).reverse().flatten().len() < full.len());
    }
    None
}

impl FixedStr {
    /// Matches the patterns against the start of a text, and returns how many clusters they take.
    pub fn match_prefix(&self, graphemes: &[Grapheme]) -> (r: Option<usize>)
        ensures
            match r {
                Some(k) => prefix_len(self@, folds(graphemes@)) == Some(k as nat),
                None => prefix_len(self@, folds(graphemes@)) is None,
            },
            r matches Some(k) ==> k <= graphemes@.len(),
    {
        let ghost text = folds(graphemes@);
        let mut at: usize = 0;
        let mut i: usize = 0;
        assert(self@.skip(0) == self@);
        assert(text.skip(0) == text);
        while i < self.patterns.len()
            invariant
                text == folds(graphemes@),
                i <= self.patterns@.len(),
                at <= graphemes@.len(),
                prefix_len(self@, text) == match prefix_len(
                    self@.skip(i as int),
                    text.skip(at as int),
                ) {
                    Some(n) => Some((at + n) as nat),
                    None => None,
                },
            decreases self.patterns@.len() - i,
        {
            let rest = slice_subrange(graphemes, at, graphemes.len());
            let ghost patterns = self@.skip(i as int);
            proof {
                assert(folds(rest@) =~= text.skip(at as int));
                assert(patterns.skip(1) == self@.skip(i + 1));
                assert(patterns[0] == self.patterns@[i as int]@);
            }
            match &self.patterns[i] {
                Pattern::Lit(lit) => {
                    proof {
                        lemma_spelled_from(lit.0@, folds(rest@), 1);
                    }
                    match lit_prefix(lit, rest) {
                        None => return None,
                        Some(k) => {
                            assert(text.skip(at as int).skip(k as int) == text.skip(at + k));
                            at += k;
                        },
                    }
                },
                Pattern::AnyGraphemes(n) => {
                    if *n > rest.len() {
                        return None;
                    }
                    assert(text.skip(at as int).skip(*n as int) == text.skip(at + *n));
                    at += *n;
                },
            }
            i += 1;
        }
        Some(at)
    }

    /// Matches the patterns against the end of a text that is given from its last cluster to its
    /// first, and returns how many clusters they take. They take all exactly if they do from the start,
    /// unless a cluster is empty, which none is that a text is split into.
    pub fn match_suffix(&self, rev: &[Grapheme]) -> (r: Option<usize>)
        ensures
            match r {
                Some(k) => suffix_len(self@, folds(rev@)) == Some(k as nat),
                None => suffix_len(self@, folds(rev@)) is None,
            },
            r matches Some(k) ==> k <= rev@.len(),
            none_empty(folds(rev@)) ==> ((r matches Some(k) && k == rev@.len()) <==> prefix_len(
                self@,
                folds(rev@).reverse(),
            ) == Some(rev@.len())),
    {
        let ghost text = folds(rev@);
        proof {
            let front = text.reverse();
            assert(front.reverse() =~= text);
            if none_empty(text) {
                assert forall|j: int| 0 <= j < front.len() implies (#[trigger] front[j]).len() > 0 by {
                    assert(text[text.len() - 1 - j] == front[j]);
                }
                law_either_end(self@, front);
            }
        }
        let mut at: usize = 0;
        let mut i: usize = self.patterns.len();
        assert(self@.take(i as int) == self@);
        assert(text.skip(0) == text);
        while i > 0
            invariant
                text == folds(rev@),
                i <= self.patterns@.len(),
                at <= rev@.len(),
                none_empty(text) ==> (suffix_len(self@, text) == Some(text.len()) <==> prefix_len(
                    self@,
                    text.reverse(),
                ) == Some(text.len())),
                suffix_len(self@, text) == match suffix_len(
                    self@.take(i as int),
                    text.skip(at as int),
                ) {
                    Some(n) => Some((at + n) as nat),
                    None => None,
                },
            decreases i,
        {
            let rest = slice_subrange(rev, at, rev.len());
            let ghost patterns = self@.take(i as int);
            proof {
                assert(folds(rest@) =~= text.skip(at as int));
                assert(patterns.drop_last() == self@.take(i - 1));
                assert(patterns.last() == self.patterns@[i - 1]@);
            }
            match &self.patterns[i - 1] {
                Pattern::Lit(lit) => {
                    proof {
                        lemma_rev_spelled_from(lit.0@, folds(rest@), 1);
                    }
                    match lit_suffix(lit, rest) {
                        None => return None,
                        Some(k) => {
                            assert(text.skip(at as int).skip(k as int) == text.skip(at + k));
                            at += k;
                        },
                    }
                },
                Pattern::AnyGraphemes(n) => {
                    if *n > rest.len() {
                        return None;
                    }
                    assert(text.skip(at as int).skip(*n as int) == text.skip(at + *n));
                    at += *n;
                },
            }
            i -= 1;
        }
        Some(at)
    }

    /// Whether some pattern matches more than one text.
    pub fn is_match_multiple(&self) -> (r: bool)
        ensures
            r == any_wildcard(self@),
    {
        let mut i: usize = 0;
        while i < self.patterns.len()
            invariant
                i <= self.patterns@.len(),
                forall|j: int| 0 <= j < i ==> !(#[trigger] self@[j] is AnyGraphemes),
            decreases self.patterns@.len() - i,
        {
            if self.patterns[i].is_match_multiple() {
                assert(self@[i as int] is AnyGraphemes);
                return true;
            }
            i += 1;
        }
        false
    }
}

/// Some pattern of the list is a wildcard.
pub open spec fn any_wildcard(patterns: Seq<PatternView>) -> bool {
    exists|i: int| 0 <= i < patterns.len() && #[trigger] patterns[i] is AnyGraphemes
}

impl SegmentView {
    /// The segment has a wildcard.
    pub open spec fn is_match_multiple(self) -> bool {
        self.floating.len() > 0 || any_wildcard(self.base)
    }
}

impl Pattern {
    /// Whether the pattern matches more than one text.
    pub fn is_match_multiple(&self) -> (r: bool)
        ensures
            r == (self@ is AnyGraphemes),
    {
        match self {
            Pattern::Lit(_) => false,
            Pattern::AnyGraphemes(_) => true,
        }
    }
}

impl Segment {
    /// Whether the segment matches more than one name.
    pub fn is_match_multiple(&self) -> (r: bool)
        ensures
            r == self@.is_match_multiple(),
    {
        self.floating_strs.len() > 0 || self.base_str.is_match_multiple()
    }
}

} // verus!

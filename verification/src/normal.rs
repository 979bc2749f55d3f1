//! Text in the form in which case and compatibility variants are the same.
use crate::ascii::{is_plain, lemma_smalls, same_text, smalls};
use caseless::Caseless;
use unicode_normalization::UnicodeNormalization;
use vstd::prelude::*;

verus! {

/// What `UnicodeNormalization::nfd` makes of a text: its canonical decomposition.
pub uninterp spec fn nfd_of(text: Seq<char>) -> Seq<char>;

/// What `UnicodeNormalization::nfkd` makes of a text: its compatibility decomposition.
pub uninterp spec fn nfkd_of(text: Seq<char>) -> Seq<char>;

/// What `Caseless::default_case_fold` makes of a text.
pub uninterp spec fn case_fold_of(text: Seq<char>) -> Seq<char>;

/// `UnicodeNormalization::nfd` over a list of characters. The result depends on the characters
/// alone. Each is decomposed into one or more. An ASCII character never is, and stays where it is, so
/// that text that differs in the case of ASCII letters only decomposes to text that does.
#[verifier::external_body]
fn nfd(text: &[char]) -> (r: Vec<char>)
    ensures
        r@ == nfd_of(text@),
        r@.len() >= text@.len(),
        forall|t: Seq<char>| same_text(t, text@) ==> same_text(#[trigger] nfd_of(t), r@),
        is_plain(text@) ==> r@ == text@,
{
    text.iter().copied().nfd().collect()
}

/// `UnicodeNormalization::nfkd` over a list of characters. The result depends on the characters
/// alone. Each is decomposed into one or more, and an ASCII character never is.
#[verifier::external_body]
fn nfkd(text: &[char]) -> (r: Vec<char>)
    ensures
        r@ == nfkd_of(text@),
        r@.len() >= text@.len(),
        is_plain(text@) ==> r@ == text@,
{
    text.iter().copied().nfkd().collect()
}

/// `Caseless::default_case_fold` over a list of characters. The result depends on the characters
/// alone. Each is folded into one or more, an ASCII capital letter into the small one, and any other
/// ASCII character into itself.
#[verifier::external_body]
fn default_case_fold(text: &[char]) -> (r: Vec<char>)
    ensures
        r@ == case_fold_of(text@),
        r@.len() >= text@.len(),
        forall|t: Seq<char>| same_text(t, text@) ==> #[trigger] case_fold_of(t) == r@,
        is_plain(text@) ==> r@ == smalls(text@),
{
    text.iter().copied().default_case_fold().collect()
}

/// The form of a text in which compatibility caseless matching compares it.
pub open spec fn normalized(text: Seq<char>) -> Seq<char> {
    nfkd_of(case_fold_of(nfkd_of(case_fold_of(nfd_of(text)))))
}

/// Puts a text into the form in which compatibility caseless matching compares it. It is no shorter, and
/// the case of ASCII letters makes no difference to it. That is all that changes of a text of ASCII
/// characters that are printed.
pub fn normalize_char_iter(text: &[char]) -> (r: Vec<char>)
    ensures
        r@ == normalized(text@),
        r@.len() >= text@.len(),
        forall|t: Seq<char>| same_text(t, text@) ==> #[trigger] normalized(t) == r@,
        is_plain(text@) ==> r@ == smalls(text@),
{
    proof {
        if is_plain(text@) {
            lemma_smalls(text@);
        }
    }
    let decomposed = nfd(text);
    let folded = default_case_fold(decomposed.as_slice());
    let decomposed = nfkd(folded.as_slice());
    let folded = default_case_fold(decomposed.as_slice());
    nfkd(folded.as_slice())
}

/// A text that has been normalized, or a part of one.
#[derive(Debug)]
pub struct Normalized<T>(pub T);

impl Normalized<Vec<char>> {
    /// The normalized form of `text`. It is no shorter, and the case of ASCII letters makes no
    /// difference to it.
    pub fn normalize(text: &[char]) -> (r: Self)
        ensures
            r.0@ == normalized(text@),
            r.0@.len() >= text@.len(),
            forall|t: Seq<char>| same_text(t, text@) ==> #[trigger] normalized(t) == r.0@,
            is_plain(text@) ==> r.0@ == smalls(text@),
    {
        Normalized(normalize_char_iter(text))
    }

    /// The same text, borrowed.
    pub fn as_deref(&self) -> (r: Normalized<&[char]>)
        ensures
            r.0@ == self.0@,
    {
        Normalized(self.0.as_slice())
    }

    /// Whether there are no characters.
    pub fn is_empty(&self) -> (r: bool)
        ensures
            r == (self.0@.len() == 0),
    {
        self.0.len() == 0
    }
}

impl<'b> Normalized<&'b [char]> {
    /// The normalized form of `text`, put behind what is in `buf`.
    pub fn normalize_to(buf: &'b mut Vec<char>, text: &[char]) -> (r: Self)
        ensures
            r.0@ == normalized(text@),
            r.0@.len() >= text@.len(),
            forall|t: Seq<char>| same_text(t, text@) ==> #[trigger] normalized(t) == r.0@,
            final(buf)@ == old(buf)@ + normalized(text@),
    {
        let start = buf.len();
        let mut normalized = normalize_char_iter(text);
        buf.append(&mut normalized);
        let r = vstd::slice::slice_subrange(buf.as_slice(), start, buf.len());
        Normalized(r)
    }

    /// Whether no characters are left.
    pub fn is_empty(&self) -> (r: bool)
        ensures
            r == (self.0@.len() == 0),
    {
        self.0.len() == 0
    }

    /// Takes the normalized form of `prefix` off the start, or returns `None` if the text does not
    /// start with it.
    pub fn strip_prefix_iter(self, prefix: &[char]) -> (r: Option<Self>)
        ensures
            match r {
                Some(rest) => self.0@ == normalized(prefix@) + rest.0@,
                None => !normalized(prefix@).is_prefix_of(self.0@),
            },
    {
        let prefix = Normalized::<Vec<char>>::normalize(prefix);
        self.strip_prefix(prefix.as_deref())
    }

    /// Takes `prefix` off the start, or returns `None` if the text does not start with it.
    pub fn strip_prefix(self, prefix: Normalized<&[char]>) -> (r: Option<Self>)
        ensures
            match r {
                Some(rest) => self.0@ == prefix.0@ + rest.0@,
                None => !prefix.0@.is_prefix_of(self.0@),
            },
    {
        let mut i: usize = 0;
        while i < prefix.0.len()
            invariant
                i <= prefix.0@.len(),
                i <= self.0@.len(),
                forall|j: int| 0 <= j < i ==> prefix.0@[j] == self.0@[j],
            decreases prefix.0@.len() - i,
        {
            if i >= self.0.len() || self.0[i] != prefix.0[i] {
                assert(prefix.0@.is_prefix_of(self.0@) ==> prefix.0@[i as int]
                    == self.0@[i as int]);
                return None;
            }
            i += 1;
        }
        let rest = vstd::slice::slice_subrange(self.0, i, self.0.len());
        assert(self.0@ =~= prefix.0@ + rest@);
        Some(Normalized(rest))
    }

    /// Takes `suffix` off the end, or returns `None` if the text does not end with it.
    pub fn strip_suffix(self, suffix: Normalized<&[char]>) -> (r: Option<Self>)
        ensures
            match r {
                Some(rest) => self.0@ == rest.0@ + suffix.0@,
                None => !suffix.0@.is_suffix_of(self.0@),
            },
    {
        let len = suffix.0.len();
        if len > self.0.len() {
            return None;
        }
        let at = self.0.len() - len;
        let mut i: usize = 0;
        while i < len
            invariant
                i <= len == suffix.0@.len(),
                at + len == self.0@.len(),
                forall|j: int| 0 <= j < i ==> suffix.0@[j] == self.0@[at + j],
            decreases len - i,
        {
            if self.0[at + i] != suffix.0[i] {
                assert(suffix.0@.is_suffix_of(self.0@) ==> suffix.0@[i as int] == self.0@.subrange(
                    at as int,
                    self.0@.len() as int,
                )[i as int]);
                return None;
            }
            i += 1;
        }
        let rest = vstd::slice::slice_subrange(self.0, 0, at);
        assert(self.0@ =~= rest@ + suffix.0@);
        Some(Normalized(rest))
    }
}

/// Text is compared after decomposing it, folding its case, decomposing what comes of that with what is
/// compatible in the place of itself, and both once more.
pub proof fn law_normalized(text: Seq<char>)
    ensures
        normalized(text) == ({
            let folded = case_fold_of(nfd_of(text));
            let again = case_fold_of(nfkd_of(folded));
            nfkd_of(again)
        }),
{
}

} // verus!

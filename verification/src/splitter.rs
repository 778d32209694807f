//! The lazy splitter itself.

use vstd::prelude::*;

verus! {

use crate::delimiter::Delimiter;
use crate::model::{find_pat, lemma_find_pat_some, split_spec};
use vstd::pervasive::unreached;
use vstd::slice::slice_subrange;

/// The views of a sequence of collected fragments.
pub open spec fn frag_views(frags: Seq<&[char]>) -> Seq<Seq<char>> {
    frags.map_values(|f: &[char]| f@)
}

/// The fragments a well-formed splitter state still has to produce: those of
/// the unconsumed tail, or none once exhausted.
pub open spec fn pending(state: Option<Seq<char>>, pat: Seq<char>) -> Seq<Seq<char>> {
    match state {
        Some(rem) => split_spec(rem, pat),
        None => seq![],
    }
}

/// A measure that every productive step decreases.
spec fn remaining_measure(state: Option<Seq<char>>) -> nat {
    match state {
        Some(rem) => rem.len() + 1,
        None => 0,
    }
}

/// A lazy producer of the fragments of a source text between delimiter
/// occurrences.
///
/// The splitter borrows the source text and never copies it: every fragment
/// it produces is a sub-slice of the original text, valid for the source's
/// lifetime `'text`, independent of the splitter's own lifetime. `remaining`
/// is the unconsumed tail of the source while splitting continues, and `None`
/// once the final fragment has been emitted; exhaustion is permanent.
pub struct StringSplitter<'text, D> {
    delimiter: D,
    remaining: Option<&'text [char]>,
    source: Ghost<Seq<char>>,
    offset: Ghost<int>,
}

impl<'text, D: Delimiter> StringSplitter<'text, D> {
    /// The whole source text the splitter was created over.
    pub closed spec fn source_view(&self) -> Seq<char> {
        self.source@
    }

    /// The pattern of the delimiter the splitter cuts at.
    pub closed spec fn pattern(&self) -> Seq<char> {
        self.delimiter.pattern()
    }

    /// The unconsumed tail of the source, or `None` once exhausted.
    pub closed spec fn remaining_view(&self) -> Option<Seq<char>> {
        match self.remaining {
            Some(rem) => Some(rem@),
            None => None,
        }
    }

    /// How many characters of the source precede the unconsumed tail.
    pub closed spec fn offset_view(&self) -> int {
        self.offset@
    }

    /// While active, the unconsumed tail is the suffix of the source that
    /// starts at the current offset.
    pub open spec fn wf(&self) -> bool {
        match self.remaining_view() {
            Some(rem) => {
                &&& 0 <= self.offset_view()
                &&& self.offset_view() + rem.len() == self.source_view().len()
                &&& rem == self.source_view().subrange(
                    self.offset_view(),
                    self.source_view().len() as int,
                )
            },
            None => true,
        }
    }

    /// Creates a splitter over `haystack`, cutting at `delimiter`.
    pub fn new(haystack: &'text [char], delimiter: D) -> (r: Self)
        ensures
            r.wf(),
            r.source_view() == haystack@,
            r.pattern() == delimiter.pattern(),
            r.remaining_view() == Some(haystack@),
            r.offset_view() == 0,
    {
        let r = Self { delimiter, remaining: Some(haystack), source: Ghost(haystack@), offset: Ghost(0int) };
        proof {
            assert(haystack@ =~= haystack@.subrange(0, haystack@.len() as int));
        }
        r
    }

    /// Produces the next fragment, or `None` once exhausted.
    ///
    /// While active with tail `rem`: when the delimiter occurs in `rem`, the
    /// fragment is the part of `rem` strictly before the leftmost occurrence
    /// and the tail resumes strictly after it; when it does not occur, the
    /// fragment is the whole of `rem` and the splitter becomes exhausted.
    /// Exhaustion is permanent: once exhausted, every call returns `None` and
    /// leaves the splitter exhausted. Every fragment is the sub-span of the
    /// source that starts at the offset the splitter had reached.
    pub fn next(&mut self) -> (r: Option<&'text [char]>)
        requires
            old(self).wf(),
        ensures
            final(self).wf(),
            final(self).source_view() == old(self).source_view(),
            final(self).pattern() == old(self).pattern(),
            match old(self).remaining_view() {
                None => r is None && final(self).remaining_view() is None,
                Some(rem) => match find_pat(rem, old(self).pattern()) {
                    Some(i) => {
                        &&& r is Some
                        &&& (r->Some_0)@ == rem.subrange(0, i)
                        &&& final(self).remaining_view() == Some(
                            rem.subrange(i + old(self).pattern().len() as int, rem.len() as int),
                        )
                        &&& final(self).offset_view() == old(self).offset_view() + i
                            + old(self).pattern().len()
                    },
                    None => {
                        &&& r is Some
                        &&& (r->Some_0)@ == rem
                        &&& final(self).remaining_view() is None
                    },
                },
            },
            r is Some ==> (r->Some_0)@ == old(self).source_view().subrange(
                old(self).offset_view(),
                old(self).offset_view() + (r->Some_0)@.len(),
            ),
    {
        match self.remaining {
            None => None,
            Some(rem) => {
                match self.delimiter.find_next(rem) {
                    Some(pos) => {
                        proof {
                            lemma_find_pat_some(rem@, self.delimiter.pattern());
                        }
                        let frag = slice_subrange(rem, 0, pos.0);
                        let tail = slice_subrange(rem, pos.1, rem.len());
                        self.remaining = Some(tail);
                        proof {
                            let src = self.source@;
                            let off = self.offset@;
                            assert(frag@ =~= src.subrange(off, off + frag@.len()));
                            assert(tail@ =~= src.subrange(off + pos.1, src.len() as int));
                        }
                        self.offset = Ghost(self.offset@ + pos.1);
                        Some(frag)
                    },
                    None => {
                        self.remaining = None;
                        proof {
                            let src = self.source@;
                            let off = self.offset@;
                            assert(rem@ =~= src.subrange(off, off + rem@.len()));
                        }
                        Some(rem)
                    },
                }
            },
        }
    }
}

/// Splits the whole of `haystack` at every occurrence of the delimiter,
/// collecting the fragments the splitter produces, in order.
pub fn split_all<'text, D: Delimiter>(haystack: &'text [char], delimiter: D) -> (r: Vec<
    &'text [char],
>)
    ensures
        frag_views(r@) == split_spec(haystack@, delimiter.pattern()),
{
    let ghost pat = delimiter.pattern();
    let ghost total = split_spec(haystack@, pat);
    let mut sp = StringSplitter::new(haystack, delimiter);
    let mut r: Vec<&'text [char]> = Vec::new();
    proof {
        assert(frag_views(r@) + pending(sp.remaining_view(), pat) =~= total);
    }
    loop
        invariant
            sp.wf(),
            sp.pattern() == pat,
            frag_views(r@) + pending(sp.remaining_view(), pat) == total,
        ensures
            sp.remaining_view() is None,
        decreases remaining_measure(sp.remaining_view()),
    {
        let ghost prev_rem = sp.remaining_view();
        let ghost prev_views = frag_views(r@);
        match sp.next() {
            Some(frag) => {
                proof {
                    let rem = prev_rem->Some_0;
                    if find_pat(rem, pat) is Some {
                        lemma_find_pat_some(rem, pat);
                    }
                    assert(seq![frag@] + pending(sp.remaining_view(), pat) =~= split_spec(
                        rem,
                        pat,
                    ));
                }
                r.push(frag);
                proof {
                    assert(frag_views(r@) =~= prev_views.push(frag@));
                    assert(frag_views(r@) + pending(sp.remaining_view(), pat) =~= prev_views
                        + split_spec(prev_rem->Some_0, pat));
                }
            },
            None => {
                break ;
            },
        }
    }
    proof {
        assert(frag_views(r@) =~= frag_views(r@) + pending(sp.remaining_view(), pat));
    }
    r
}

/// The first fragment of `haystack` split at the character `delimiter`: the
/// part strictly before its first occurrence, or the whole of `haystack` when
/// the character does not occur.
pub fn until_char<'text>(haystack: &'text [char], delimiter: char) -> (r: &'text [char])
    ensures
        r@ == split_spec(haystack@, seq![delimiter])[0],
{
    let mut sp = StringSplitter::new(haystack, delimiter);
    match sp.next() {
        Some(frag) => frag,
        None => unreached(),
    }
}

} // verus!

//! Hierarchical account paths: colon-delimited segments with prefix
//! containment, the basis for subtree balance rollups.

use vstd::prelude::*;

use crate::textutil::{join_with, spec_join, spec_split, split_on, str_eq};

verus! {

/// A hierarchical account path. The view is the sequence of path segments,
/// each a sequence of characters.
#[derive(Debug)]
pub struct Account {
    parts: Vec<String>,
}

impl View for Account {
    type V = Seq<Seq<char>>;

    closed spec fn view(&self) -> Seq<Seq<char>> {
        self.parts.deep_view()
    }
}

/// The segments that parsing a path text yields: none for the empty text,
/// else the colon-separated pieces.
pub open spec fn spec_account_of(s: Seq<char>) -> Seq<Seq<char>> {
    if s.len() == 0 {
        Seq::empty()
    } else {
        spec_split(s, ':')
    }
}

impl Account {
    /// Parses a colon-delimited path; the empty text gives the empty path.
    pub fn parse_str(s: &str) -> (a: Account)
        ensures
            a@ == spec_account_of(s@),
    {
        if s.is_empty() {
            let a = Account { parts: Vec::new() };
            proof {
                assert(a@ =~= Seq::<Seq<char>>::empty());
            }
            a
        } else {
            Account { parts: split_on(s, ':') }
        }
    }

    /// The path written out: segments joined with colons.
    pub fn to_text(&self) -> (r: String)
        ensures
            r@ == spec_join(self@, ':'),
    {
        proof {
            reveal_strlit(":");
        }
        join_with(&self.parts, ":")
    }

    /// Does this path lie in the subtree rooted at `other`?
    /// Holds exactly when `other`'s segments are a prefix of this path's.
    pub fn starts_with(&self, other: &Account) -> (r: bool)
        ensures
            r == other@.is_prefix_of(self@),
    {
        if other.parts.len() > self.parts.len() {
            proof {
                assert(!other@.is_prefix_of(self@)) by {
                    assert(other@.len() > self@.len());
                }
            }
            return false;
        }
        let n = other.parts.len();
        let mut i: usize = 0;
        while i < n
            invariant
                i <= n,
                n == other.parts.len(),
                n <= self.parts.len(),
                forall|j: int| 0 <= j < i ==> self@[j] == other@[j],
        decreases n - i,
        {
            if !str_eq(self.parts[i].as_str(), other.parts[i].as_str()) {
                assert(self@[i as int] != other@[i as int]);
                return false;
            }
            i += 1;
        }
        proof {
            assert(other@ =~= self@.take(n as int));
        }
        true
    }

    /// A copy of this path with the same segments.
    pub fn duplicate(&self) -> (r: Account)
        ensures
            r@ == self@,
    {
        let r = Account { parts: self.parts.clone() };
        proof {
            assert(r@ =~= self@) by {
                broadcast use vstd::std_specs::vec::vec_clone_deep_view_proof;
                assert(r.parts.deep_view() =~= self.parts.deep_view());
            }
        }
        r
    }

    /// Character-level equality of two paths.
    pub fn matches(&self, other: &Account) -> (r: bool)
        ensures
            r == (self@ == other@),
    {
        if self.parts.len() != other.parts.len() {
            assert(self@.len() != other@.len());
            return false;
        }
        let n = self.parts.len();
        let mut i: usize = 0;
        while i < n
            invariant
                i <= n,
                n == self.parts.len(),
                n == other.parts.len(),
                forall|j: int| 0 <= j < i ==> self@[j] == other@[j],
        decreases n - i,
        {
            if !str_eq(self.parts[i].as_str(), other.parts[i].as_str()) {
                assert(self@[i as int] != other@[i as int]);
                return false;
            }
            i += 1;
        }
        proof {
            assert(self@ =~= other@);
        }
        true
    }
}

/// Writing a path out and parsing the text back returns the same path, for
/// every path whose segments hold no colon and that is not the single
/// empty segment.
pub proof fn lemma_account_text_roundtrip(parts: Seq<Seq<char>>)
    requires
        forall|i: int, j: int|
            0 <= i < parts.len() && 0 <= j < parts[i].len() ==> #[trigger] parts[i][j] != ':',
        !(parts.len() == 1 && parts[0].len() == 0),
    ensures
        spec_account_of(spec_join(parts, ':')) == parts,
{
    if parts.len() == 0 {
        assert(spec_join(parts, ':') == Seq::<char>::empty());
        assert(spec_account_of(Seq::<char>::empty()) =~= parts);
    } else {
        crate::textutil::lemma_split_join(parts, ':');
        let w = spec_join(parts, ':');
        if w.len() == 0 {
            if parts.len() == 1 {
                assert(w == parts[0]);
                assert(false);
            } else {
                assert(w == spec_join(parts.drop_last(), ':') + seq![':'] + parts.last());
                assert(false);
            }
        }
    }
}

impl Clone for Account {
    /// Cloning keeps the segments.
    fn clone(&self) -> (r: Account)
        ensures
            r@ == self@,
    {
        self.duplicate()
    }
}

impl PartialEq for Account {
    fn eq(&self, other: &Account) -> (r: bool)
        ensures
            r == (self@ == other@),
    {
        self.matches(other)
    }
}

impl Eq for Account {

}

impl vstd::std_specs::cmp::PartialEqSpecImpl for Account {
    open spec fn obeys_eq_spec() -> bool {
        true
    }

    open spec fn eq_spec(&self, other: &Account) -> bool {
        self@ == other@
    }
}

impl core::str::FromStr for Account {
    type Err = core::convert::Infallible;

    fn from_str(s: &str) -> Result<Account, core::convert::Infallible> {
        Ok(Account::parse_str(s))
    }
}

} // verus!

//! Reading the commit out of the listing that `git ls-remote` prints.

use vstd::prelude::*;
use vstd::string::*;

use crate::document::opt_view;

verus! {

/// Whether `c` ends the first field of a listing: a newline or a tab.
pub open spec fn is_field_end(c: char) -> bool {
    c == '\n' || c == '\t'
}

/// Where the first field of `s` ends: the first newline or tab, or the end of `s`.
pub open spec fn field_end(s: Seq<char>) -> int
    decreases s.len(),
{
    if s.len() == 0 {
        0
    } else if is_field_end(s[0]) {
        0
    } else {
        1 + field_end(s.drop_first())
    }
}

/// The first field of the first line of `s`, absent where `s` has no line at all. A line
/// ends at a newline, and a carriage return just before that newline is not part of it.
pub open spec fn first_field(s: Seq<char>) -> Option<Seq<char>> {
    if s.len() == 0 {
        None
    } else {
        let j = field_end(s);
        if j < s.len() && s[j] == '\n' && j >= 1 && s[j - 1] == '\r' {
            Some(s.subrange(0, j - 1))
        } else {
            Some(s.subrange(0, j))
        }
    }
}

proof fn lemma_field_end(s: Seq<char>, j: int)
    requires
        0 <= j <= s.len(),
        forall|i: int| 0 <= i < j ==> !is_field_end(s[i]),
        j < s.len() ==> is_field_end(s[j]),
    ensures
        field_end(s) == j,
    decreases j,
{
    if j > 0 {
        assert forall|i: int| 0 <= i < j - 1 implies !is_field_end(s.drop_first()[i]) by {
            assert(s.drop_first()[i] == s[i + 1]);
        }
        lemma_field_end(s.drop_first(), j - 1);
    }
}

/// The commit that a `git ls-remote` listing names first: the first field of its first
/// line. Absent where the listing is empty.
pub fn commit_from_ls_remote(remotes: &str) -> (r: Option<String>)
    ensures
        opt_view(r) == first_field(remotes@),
{
    let n = remotes.unicode_len();
    if n == 0 {
        return None;
    }
    let mut j: usize = 0;
    let mut done = false;
    while j < n && !done
        invariant
            n == remotes@.len(),
            0 <= j <= n,
            forall|i: int| 0 <= i < j ==> !is_field_end(remotes@[i]),
            done ==> j < n && is_field_end(remotes@[j as int]),
        decreases n - j + if done { 0int } else { 1int },
    {
        let c = remotes.get_char(j);
        if c == '\n' || c == '\t' {
            done = true;
        } else {
            j += 1;
        }
    }
    proof {
        lemma_field_end(remotes@, j as int);
    }
    let end = if j < n && remotes.get_char(j) == '\n' && j >= 1 && remotes.get_char(j - 1) == '\r' {
        j - 1
    } else {
        j
    };
    Some(remotes.substring_char(0, end).to_owned())
}

} // verus!

//! Path text: prefixes, separators and the path of a subvolume relative to
//! its parent.

use vstd::prelude::*;

verus! {

/// The character between the components of a path.
pub const SEPARATOR: char = '/';

/// The text of an optional string.
pub open spec fn text(s: Option<String>) -> Option<Seq<char>> {
    match s {
        Some(s) => Some(s@),
        None => None,
    }
}

/// A copy of an optional string.
pub fn copy_text(s: &Option<String>) -> (copy: Option<String>)
    ensures
        text(copy) == text(*s),
{
    match s {
        Some(s) => Some(s.clone()),
        None => None,
    }
}

/// `s` without the leading `prefix`, or `s` itself where it does not start with it.
pub open spec fn strip_prefix(s: Seq<char>, prefix: Seq<char>) -> Seq<char> {
    if prefix.is_prefix_of(s) {
        s.skip(prefix.len() as int)
    } else {
        s
    }
}

/// `s` without one leading separator, or `s` itself where it has none.
pub open spec fn strip_separator(s: Seq<char>) -> Seq<char> {
    if s.len() > 0 && s[0] == SEPARATOR {
        s.skip(1)
    } else {
        s
    }
}

/// The path of a subvolume as seen from its parent: with the parent's path
/// and then one separator taken from the front. Against a parent whose path
/// is unknown the path stays as it is.
pub open spec fn relativize(path: Seq<char>, parent: Option<Seq<char>>) -> Seq<char> {
    match parent {
        Some(parent) => strip_separator(strip_prefix(path, parent)),
        None => path,
    }
}

/// `s` with every leading repetition of `prefix` taken away.
pub open spec fn trim_start(s: Seq<char>, prefix: Seq<char>) -> Seq<char>
    decreases s.len(),
{
    if prefix.len() > 0 && prefix.is_prefix_of(s) {
        trim_start(s.skip(prefix.len() as int), prefix)
    } else {
        s
    }
}

/// Whether `s` starts with `prefix`.
pub fn starts_with(s: &str, prefix: &str) -> (found: bool)
    ensures
        found == prefix@.is_prefix_of(s@),
{
    let n: usize = prefix.unicode_len();
    if n > s.unicode_len() {
        return false;
    }
    let mut i: usize = 0;
    while i < n
        invariant
            i <= n,
            n == prefix@.len(),
            n <= s@.len(),
            forall|k: int| 0 <= k < i ==> prefix@[k] == s@[k],
        decreases n - i,
    {
        if prefix.get_char(i) != s.get_char(i) {
            assert(s@.subrange(0, n as int)[i as int] != prefix@[i as int]);
            return false;
        }
        i += 1;
    }
    assert(prefix@ =~= s@.subrange(0, n as int));
    true
}

/// Whether `a` and `b` hold the same text.
pub fn same_text(a: &str, b: &str) -> (same: bool)
    ensures
        same == (a@ == b@),
{
    let same = a.unicode_len() == b.unicode_len() && starts_with(a, b);
    proof {
        if same {
            assert(a@.subrange(0, b@.len() as int) =~= a@);
        }
    }
    same
}

/// The rest of `s` from its `from`-th character on.
pub fn skip_chars(s: &str, from: usize) -> (rest: &str)
    requires
        from <= s@.len(),
    ensures
        rest@ == s@.skip(from as int),
{
    s.substring_char(from, s.unicode_len())
}

/// Takes `prefix` from the front of `s` where `s` starts with it.
pub fn without_prefix<'a>(s: &'a str, prefix: &str) -> (rest: &'a str)
    ensures
        rest@ == strip_prefix(s@, prefix@),
{
    if starts_with(s, prefix) {
        skip_chars(s, prefix.unicode_len())
    } else {
        s
    }
}

/// Takes one leading separator from `s` where it has one.
pub fn without_separator(s: &str) -> (rest: &str)
    ensures
        rest@ == strip_separator(s@),
{
    if s.unicode_len() > 0 && s.get_char(0) == SEPARATOR {
        skip_chars(s, 1)
    } else {
        s
    }
}

/// The path of a subvolume relative to its parent's path.
pub fn relative_to(path: &str, parent: &Option<String>) -> (relative: String)
    ensures
        relative@ == relativize(path@, text(*parent)),
{
    match parent {
        Some(parent) => without_separator(without_prefix(path, parent.as_str())).to_owned(),
        None => path.to_owned(),
    }
}

/// Takes every leading repetition of `prefix` from `s`.
pub fn without_repeated_prefix<'a>(s: &'a str, prefix: &str) -> (rest: &'a str)
    ensures
        rest@ == trim_start(s@, prefix@),
{
    let n: usize = prefix.unicode_len();
    let mut rest = s;
    if n == 0 {
        return rest;
    }
    while starts_with(rest, prefix)
        invariant
            n == prefix@.len(),
            n > 0,
            trim_start(rest@, prefix@) == trim_start(s@, prefix@),
        decreases rest@.len(),
    {
        rest = skip_chars(rest, n);
    }
    rest
}

} // verus!

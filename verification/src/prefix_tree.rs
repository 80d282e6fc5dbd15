//! Path patterns in a radix tree, kept in a `matchit::Router`.
//!
//! A route installs two patterns: its own path, and its path followed by `/{*rest}`, which matches
//! every longer path below it.

use vstd::prelude::*;
use vstd::string::*;

verus! {

/// A radix tree of path patterns, held in a `matchit::Router`.
#[verifier::external_body]
pub struct PrefixTree {
    tree: matchit::Router<u64>,
}

/// The patterns that were inserted into a tree, each with its value, in order of insertion.
pub uninterp spec fn installed(tree: PrefixTree) -> Seq<(Seq<char>, u64)>;

/// Why a tree with the given insertions refuses one more pattern; `None` where it takes it.
pub uninterp spec fn refusal(installed: Seq<(Seq<char>, u64)>, pattern: Seq<char>) -> Option<Seq<char>>;

/// The value that a tree with the given insertions finds for a path.
pub uninterp spec fn found(installed: Seq<(Seq<char>, u64)>, path: Seq<char>) -> Option<u64>;

/// Where a scan for named parameters stands.
pub ghost enum Scan {
    /// Outside of a parameter
    Outside,
    /// Outside, right behind a closing brace
    Closed,
    /// At an opening brace, which a second one would escape
    Opened,
    /// At an opening brace right behind a closing one
    Reopened,
    /// Inside a parameter
    Inside,
}

/// How a scan for named parameters ends, and the number of those it found: an opening brace begins
/// one, and the next closing brace ends it. A doubled opening brace begins none, unless it stands
/// right behind a closing brace.
pub open spec fn scanned(s: Seq<char>) -> (Scan, nat)
    decreases s.len(),
{
    if s.len() == 0 {
        (Scan::Outside, 0)
    } else {
        let (at, n) = scanned(s.drop_last());
        let c = s.last();
        match at {
            Scan::Outside => if c == '{' {
                (Scan::Opened, n)
            } else if c == '}' {
                (Scan::Closed, n)
            } else {
                (Scan::Outside, n)
            },
            Scan::Closed => if c == '{' {
                (Scan::Reopened, n)
            } else if c == '}' {
                (Scan::Closed, n)
            } else {
                (Scan::Outside, n)
            },
            Scan::Opened => if c == '{' {
                (Scan::Outside, n)
            } else if c == '}' {
                (Scan::Closed, n + 1)
            } else {
                (Scan::Inside, n)
            },
            Scan::Reopened | Scan::Inside => if c == '}' {
                (Scan::Closed, n + 1)
            } else {
                (Scan::Inside, n)
            },
        }
    }
}

/// How many named parameters a path holds.
pub open spec fn named_params(s: Seq<char>) -> nat {
    scanned(s).1
}

/// Whether a text holds no brace.
pub open spec fn brace_free(s: Seq<char>) -> bool {
    forall|i: int| 0 <= i < s.len() ==> s[i] != '{' && s[i] != '}'
}

/// The pattern that matches everything below a base path.
pub open spec fn below(base: Seq<char>) -> Seq<char> {
    base + "/{*rest}"@
}

/// A pattern without parameters: a literal path, or everything below a literal base.
pub open spec fn is_plain(pattern: Seq<char>) -> bool {
    ||| (pattern.len() > 0 && brace_free(pattern))
    ||| exists|base: Seq<char>| brace_free(base) && pattern == #[trigger] below(base)
}

/// Whether all inserted patterns are plain.
pub open spec fn all_plain(installed: Seq<(Seq<char>, u64)>) -> bool {
    forall|i: int| 0 <= i < installed.len() ==> is_plain((#[trigger] installed[i]).0)
}

/// The literal part of a plain pattern: all of it, or what stands before the final parameter.
pub open spec fn literal(pattern: Seq<char>) -> Seq<char> {
    if brace_free(pattern) {
        pattern
    } else {
        pattern.take(pattern.len() - 7)
    }
}

/// Whether a plain pattern matches a path.
pub open spec fn covers(pattern: Seq<char>, path: Seq<char>) -> bool {
    if brace_free(pattern) {
        path == pattern
    } else {
        path.len() > literal(pattern).len() && literal(pattern).is_prefix_of(path)
    }
}

/// Whether insertion `i` is the most specific one that matches a path: none that matches has a
/// longer literal part.
pub open spec fn most_specific(installed: Seq<(Seq<char>, u64)>, path: Seq<char>, i: int) -> bool {
    &&& 0 <= i < installed.len()
    &&& covers(installed[i].0, path)
    &&& forall|j: int|
        0 <= j < installed.len() && covers((#[trigger] installed[j]).0, path) ==> literal(
            installed[j].0,
        ).len() <= literal(installed[i].0).len()
}

/// Whether a pattern was inserted.
pub open spec fn holds_pattern(installed: Seq<(Seq<char>, u64)>, pattern: Seq<char>) -> bool {
    exists|i: int| 0 <= i < installed.len() && (#[trigger] installed[i]).0 == pattern
}

/// `matchit::Router::new`: a tree without patterns.
#[verifier::external_body]
pub(crate) fn new_tree() -> (r: PrefixTree)
    ensures
        installed(r) == Seq::<(Seq<char>, u64)>::empty(),
{
    PrefixTree { tree: matchit::Router::new() }
}

/// `matchit::Router::insert`: whether a tree takes a pattern, and the text of its error where it
/// does not, follow from the patterns inserted so far. Among plain patterns only one that is
/// there already is refused, by a text that names it.
///
/// The call panics on the twenty-sixth named parameter of a pattern; the final one of a pattern
/// below a base has no part in that. What a tree holds after a refusal is left unsaid.
#[verifier::external_body]
pub(crate) fn tree_insert(
    tree: &mut PrefixTree,
    pattern: String,
    value: u64,
) -> (r: Result<(), String>)
    requires
        named_params(pattern@) <= 25 || exists|base: Seq<char>|
            pattern@ == #[trigger] below(base) && named_params(base) <= 25,
    ensures
        match r {
            Ok(_) => refusal(installed(*old(tree)), pattern@) is None && installed(*final(tree))
                == installed(*old(tree)).push((pattern@, value)),
            Err(text) => refusal(installed(*old(tree)), pattern@) == Some(text@),
        },
        all_plain(installed(*old(tree))) && is_plain(pattern@) ==> (r is Err <==> holds_pattern(
            installed(*old(tree)),
            pattern@,
        )),
        all_plain(installed(*old(tree))) && is_plain(pattern@) && r is Err ==> r->Err_0@
            == "Insertion failed due to conflict with previously registered route: "@ + pattern@,
{
    tree.tree.insert(pattern, value).map_err(|e| e.to_string())
}

/// `matchit::Router::at`: what a tree finds for a path follows from the inserted patterns, and is
/// the value of one of them. Among plain patterns it is the most specific one that matches, and
/// nothing is found only where none matches.
#[verifier::external_body]
pub(crate) fn tree_at(tree: &PrefixTree, path: &str) -> (r: Option<u64>)
    ensures
        r == found(installed(*tree), path@),
        r is Some ==> exists|i: int|
            0 <= i < installed(*tree).len() && (#[trigger] installed(*tree)[i]).1 == r->0,
        all_plain(installed(*tree)) ==> match r {
            Some(v) => exists|i: int|
                most_specific(installed(*tree), path@, i) && (#[trigger] installed(*tree)[i]).1 == v,
            None => forall|i: int|
                0 <= i < installed(*tree).len() ==> !covers(
                    (#[trigger] installed(*tree)[i]).0,
                    path@,
                ),
        },
{
    tree.tree.at(path).ok().map(|m| *m.value)
}

/// A path without braces holds no named parameter, and each name in braces behind it adds one.
pub proof fn lemma_names_in_braces_count(path: Seq<char>, name: Seq<char>)
    requires
        brace_free(name),
        name.len() > 0,
    ensures
        brace_free(path) ==> scanned(path) == (Scan::Outside, 0nat),
        scanned(path).0 == Scan::Outside ==> named_params(path + seq!['{'] + name + seq!['}'])
            == named_params(path) + 1,
    decreases path.len(),
{
    if brace_free(path) && path.len() > 0 {
        let front = path.drop_last();
        assert(brace_free(front)) by {
            assert forall|i: int| 0 <= i < front.len() implies front[i] != '{' && front[i]
                != '}' by {
                assert(path[i] != '{' && path[i] != '}');
            }
        }
        lemma_names_in_braces_count(front, name);
    }
    if scanned(path).0 == Scan::Outside {
        let opened = path + seq!['{'];
        assert(opened.drop_last() =~= path);
        assert(opened.last() == '{');
        lemma_inside_braces(opened, name);
        let named = opened + name;
        let closed = named + seq!['}'];
        assert(closed.drop_last() =~= named);
        assert(closed.last() == '}');
    }
}

proof fn lemma_inside_braces(opened: Seq<char>, name: Seq<char>)
    requires
        brace_free(name),
        name.len() > 0,
        scanned(opened).0 == Scan::Opened,
    ensures
        scanned(opened + name) == (Scan::Inside, scanned(opened).1),
    decreases name.len(),
{
    let all = opened + name;
    let front = name.drop_last();
    assert(all.drop_last() =~= opened + front);
    assert(all.last() == name.last());
    assert(name[name.len() - 1] != '{' && name[name.len() - 1] != '}');
    if front.len() > 0 {
        assert forall|i: int| 0 <= i < front.len() implies front[i] != '{' && front[i] != '}' by {
            assert(name[i] != '{' && name[i] != '}');
        }
        lemma_inside_braces(opened, front);
    } else {
        assert(opened + front =~= opened);
    }
}

} // verus!

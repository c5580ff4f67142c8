//! The order in which paths are arranged.
//!
//! A path is read as the components that its separators part it into. Two
//! paths are compared component by component, and two components character by
//! character, so that `a/b` comes before `a.b` although `.` is the lower
//! character: the component `a` is a beginning of the component `a.b`.
//!
//! A path is taken as it is written. The components `.` and `..` are compared
//! as the text they are, like any name, so `(old)/y` comes before `../x`; and
//! nothing is left out of a path before it is compared, so `a//b`, with its
//! empty component, comes before `a/b`. On paths without such components the
//! order is that of `std::path::Path`.

use vstd::prelude::*;
use vstd::std_specs::iter::IteratorSpec;

verus! {

/// The components of a path: the runs of characters between its separators. A
/// path without a separator is one component; a separator at either end
/// leaves an empty component there.
pub open spec fn components(path: Seq<char>) -> Seq<Seq<char>>
    decreases path.len(),
{
    if path.len() == 0 {
        seq![Seq::empty()]
    } else {
        let rest = components(path.drop_first());
        if path[0] == '/' {
            seq![Seq::empty()] + rest
        } else {
            rest.update(0, seq![path[0]] + rest[0])
        }
    }
}

/// Whether component `a` comes before component `b` or equals it: at the
/// first place where they differ `a` has the lower code point, or `a` ends
/// there.
pub open spec fn component_le(a: Seq<char>, b: Seq<char>) -> bool
    decreases a.len(),
{
    if a.len() == 0 {
        true
    } else if b.len() == 0 {
        false
    } else if a[0] == b[0] {
        component_le(a.drop_first(), b.drop_first())
    } else {
        (a[0] as int) < (b[0] as int)
    }
}

/// Whether the components `a` come before the components `b` or equal them: at
/// the first place where they differ `a` has the lower component, or `a` ends
/// there.
pub open spec fn components_le(a: Seq<Seq<char>>, b: Seq<Seq<char>>) -> bool
    decreases a.len(),
{
    if a.len() == 0 {
        true
    } else if b.len() == 0 {
        false
    } else if a[0] == b[0] {
        components_le(a.drop_first(), b.drop_first())
    } else {
        component_le(a[0], b[0])
    }
}

/// Whether path `a` comes before path `b` or is the same path.
pub open spec fn path_le(a: Seq<char>, b: Seq<char>) -> bool {
    components_le(components(a), components(b))
}

/// Whether character `c` sorts strictly before character `d` within a path.
/// The separator closes a component, so it sorts before every character that
/// can continue one; all other characters sort by code point.
pub open spec fn char_before(c: char, d: char) -> bool {
    c != d && (c == '/' || (d != '/' && (c as int) < (d as int)))
}

/// The order of [`path_le`] as one pass over the characters of the two paths
/// finds it, without parting them into components.
pub open spec fn scan_le(a: Seq<char>, b: Seq<char>) -> bool
    decreases a.len(),
{
    if a.len() == 0 {
        true
    } else if b.len() == 0 {
        false
    } else if a[0] == b[0] {
        scan_le(a.drop_first(), b.drop_first())
    } else {
        char_before(a[0], b[0])
    }
}

/// How the components of a path come from those of the path behind its first
/// character.
proof fn lemma_components_shape(path: Seq<char>)
    ensures
        components(path).len() >= 1,
        path.len() == 0 ==> components(path) == seq![Seq::<char>::empty()],
        path.len() > 0 && path[0] == '/' ==> components(path)[0].len() == 0 && components(
            path,
        ).drop_first() == components(path.drop_first()),
        path.len() > 0 && path[0] != '/' ==> components(path)[0] == seq![path[0]] + components(
            path.drop_first(),
        )[0] && components(path).drop_first() == components(path.drop_first()).drop_first(),
    decreases path.len(),
{
    if path.len() > 0 {
        let rest = components(path.drop_first());
        lemma_components_shape(path.drop_first());
        if path[0] == '/' {
            assert((seq![Seq::<char>::empty()] + rest).drop_first() =~= rest);
        } else {
            assert(rest.update(0, seq![path[0]] + rest[0]).drop_first() =~= rest.drop_first());
        }
    }
}

/// Comparing two paths component by component comes to one pass over their
/// characters in which the separator counts as the lowest character.
pub proof fn lemma_path_le_is_scan_le(a: Seq<char>, b: Seq<char>)
    ensures
        path_le(a, b) == scan_le(a, b),
    decreases a.len(),
{
    lemma_components_shape(a);
    lemma_components_shape(b);
    let of_a = components(a);
    let of_b = components(b);
    if a.len() == 0 {
        assert(of_a[0].len() == 0);
        assert(component_le(of_a[0], of_b[0]));
        assert(of_a.drop_first().len() == 0);
        assert(components_le(of_a.drop_first(), of_b.drop_first()));
    } else if b.len() == 0 {
        if a[0] == '/' {
            lemma_components_shape(a.drop_first());
            assert(of_a[0] =~= of_b[0]);
            assert(!components_le(of_a.drop_first(), of_b.drop_first()));
        } else {
            assert(of_a[0].len() > 0);
            assert(of_a[0] != of_b[0]);
            assert(!component_le(of_a[0], of_b[0]));
        }
        assert(!path_le(a, b));
    } else if a[0] == b[0] {
        lemma_path_le_is_scan_le(a.drop_first(), b.drop_first());
        lemma_components_shape(a.drop_first());
        lemma_components_shape(b.drop_first());
        let behind_a = components(a.drop_first());
        let behind_b = components(b.drop_first());
        if a[0] == '/' {
            assert(of_a[0] =~= of_b[0]);
            assert(path_le(a, b) == components_le(behind_a, behind_b));
        } else {
            assert(of_a[0].drop_first() =~= behind_a[0]);
            assert(of_b[0].drop_first() =~= behind_b[0]);
            if behind_a[0] == behind_b[0] {
                assert(of_a[0] =~= of_b[0]);
                assert(path_le(a, b) == components_le(
                    behind_a.drop_first(),
                    behind_b.drop_first(),
                ));
            } else {
                assert(of_a[0] != of_b[0]);
                assert(path_le(a, b) == component_le(of_a[0], of_b[0]));
                assert(component_le(of_a[0], of_b[0]) == component_le(behind_a[0], behind_b[0]));
            }
            assert(path_le(a, b) == components_le(behind_a, behind_b));
        }
    } else {
        if a[0] == '/' {
            assert(of_b[0].len() > 0);
            assert(of_a[0] != of_b[0]);
            assert(component_le(of_a[0], of_b[0]));
        } else if b[0] == '/' {
            assert(of_a[0].len() > 0);
            assert(of_a[0] != of_b[0]);
            assert(!component_le(of_a[0], of_b[0]));
        } else {
            assert(of_a[0][0] == a[0]);
            assert(of_b[0][0] == b[0]);
            assert(of_a[0] != of_b[0]);
            assert(component_le(of_a[0], of_b[0]) == ((a[0] as int) < (b[0] as int)));
        }
        assert(path_le(a, b) == char_before(a[0], b[0]));
    }
}

proof fn lemma_scan_le_reflexive(a: Seq<char>)
    ensures
        scan_le(a, a),
    decreases a.len(),
{
    if a.len() > 0 {
        lemma_scan_le_reflexive(a.drop_first());
    }
}

proof fn lemma_scan_le_total(a: Seq<char>, b: Seq<char>)
    ensures
        scan_le(a, b) || scan_le(b, a),
    decreases a.len(),
{
    if a.len() > 0 && b.len() > 0 && a[0] == b[0] {
        lemma_scan_le_total(a.drop_first(), b.drop_first());
    }
}

proof fn lemma_scan_le_antisymmetric(a: Seq<char>, b: Seq<char>)
    requires
        scan_le(a, b),
        scan_le(b, a),
    ensures
        a == b,
    decreases a.len(),
{
    if a.len() > 0 {
        lemma_scan_le_antisymmetric(a.drop_first(), b.drop_first());
        assert(a =~= seq![a[0]] + a.drop_first());
        assert(b =~= seq![b[0]] + b.drop_first());
    } else {
        assert(a =~= b);
    }
}

proof fn lemma_scan_le_transitive(a: Seq<char>, b: Seq<char>, c: Seq<char>)
    requires
        scan_le(a, b),
        scan_le(b, c),
    ensures
        scan_le(a, c),
    decreases a.len(),
{
    if a.len() > 0 && a[0] == b[0] && b[0] == c[0] {
        lemma_scan_le_transitive(a.drop_first(), b.drop_first(), c.drop_first());
    }
}

/// Every path comes before or equals itself.
pub proof fn lemma_path_le_reflexive(a: Seq<char>)
    ensures
        path_le(a, a),
{
    lemma_path_le_is_scan_le(a, a);
    lemma_scan_le_reflexive(a);
}

/// Of any two paths, one comes before or equals the other.
pub proof fn lemma_path_le_total(a: Seq<char>, b: Seq<char>)
    ensures
        path_le(a, b) || path_le(b, a),
{
    lemma_path_le_is_scan_le(a, b);
    lemma_path_le_is_scan_le(b, a);
    lemma_scan_le_total(a, b);
}

/// Two paths that each come before or equal the other are the same path.
pub proof fn lemma_path_le_antisymmetric(a: Seq<char>, b: Seq<char>)
    requires
        path_le(a, b),
        path_le(b, a),
    ensures
        a == b,
{
    lemma_path_le_is_scan_le(a, b);
    lemma_path_le_is_scan_le(b, a);
    lemma_scan_le_antisymmetric(a, b);
}

/// The order carries over from one pair of paths to the next.
pub proof fn lemma_path_le_transitive(a: Seq<char>, b: Seq<char>, c: Seq<char>)
    requires
        path_le(a, b),
        path_le(b, c),
    ensures
        path_le(a, c),
{
    lemma_path_le_is_scan_le(a, b);
    lemma_path_le_is_scan_le(b, c);
    lemma_path_le_is_scan_le(a, c);
    lemma_scan_le_transitive(a, b, c);
}

/// Decides [`path_le`] on two paths.
pub fn comes_before(a: &str, b: &str) -> (le: bool)
    ensures
        le == path_le(a@, b@),
{
    proof {
        lemma_path_le_is_scan_le(a@, b@);
    }
    let mut x = a.chars();
    let mut y = b.chars();
    loop
        invariant
            path_le(a@, b@) == scan_le(x.remaining(), y.remaining()),
            x.decrease() is Some,
        decreases x.decrease()->0,
    {
        let ghost rest_a = x.remaining();
        let ghost rest_b = y.remaining();
        match x.next() {
            None => {
                return true;
            },
            Some(c) => {
                match y.next() {
                    None => {
                        return false;
                    },
                    Some(d) => {
                        assert(rest_a[0] == c && rest_b[0] == d);
                        if c != d {
                            if c == '/' {
                                return true;
                            } else if d == '/' {
                                return false;
                            } else {
                                return c < d;
                            }
                        }
                    },
                }
            },
        }
    }
}

} // verus!

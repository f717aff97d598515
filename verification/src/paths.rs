//! Unix path strings compared and taken apart by components, as `std::path` does.

use vstd::prelude::*;
use crate::text::{split_char, split_on, lemma_split_nonempty, str_eq, join_with};

verus! {

/// A path's components: whether it starts at the root, whether it starts with a `.`
/// component, and its remaining components (empty and `.` pieces dropped).
pub struct PathShape {
    pub rooted: bool,
    pub current_dir: bool,
    pub parts: Seq<Seq<char>>,
}

pub open spec fn is_dot(p: Seq<char>) -> bool {
    p.len() == 1 && p[0] == '.'
}

/// The pieces that are path components: neither empty nor `.`.
pub open spec fn normal_parts(pieces: Seq<Seq<char>>) -> Seq<Seq<char>>
    decreases pieces.len(),
{
    if pieces.len() == 0 {
        Seq::<Seq<char>>::empty()
    } else {
        let rest = normal_parts(pieces.drop_last());
        if pieces.last().len() == 0 || is_dot(pieces.last()) {
            rest
        } else {
            rest.push(pieces.last())
        }
    }
}

pub open spec fn path_shape(p: Seq<char>) -> PathShape {
    let pieces = split_on(p, '/');
    let rooted = p.len() > 0 && p[0] == '/';
    PathShape { rooted, current_dir: !rooted && is_dot(pieces[0]), parts: normal_parts(pieces) }
}

/// Two paths with `/` as their only separator are equal as `Path`s when their
/// components are.
pub open spec fn same_unix_path(a: Seq<char>, b: Seq<char>) -> bool {
    path_shape(a) == path_shape(b)
}

/// `p` with each `sep` replaced by `/`.
pub open spec fn with_slashes(p: Seq<char>, sep: char) -> Seq<char> {
    join_with(split_on(p, sep), '/')
}

/// Two paths are equal as `Path`s when their components are, `/` and the platform's
/// main separator `sep` both separating components (`sep` is `/` on Unix and `\` on
/// Windows). A Windows drive or UNC prefix is compared as the text it is written in.
pub open spec fn same_path_spec(a: Seq<char>, b: Seq<char>, sep: char) -> bool {
    same_unix_path(with_slashes(a, sep), with_slashes(b, sep))
}

/// Calls `std::path::MAIN_SEPARATOR`. Claims only that it is `/` or `\`, as std
/// documents for the platforms it supports; which one depends on the platform.
#[verifier::external_body]
pub fn main_separator() -> (r: char)
    ensures
        r == '/' || r == '\\',
{
    std::path::MAIN_SEPARATOR
}

fn is_dot_str(p: &str) -> (r: bool)
    ensures
        r == is_dot(p@),
{
    p.unicode_len() == 1 && p.get_char(0) == '.'
}

/// The components of `p` other than the root and a leading `.`.
pub fn path_parts(p: &str) -> (r: Vec<String>)
    ensures
        r@.map_values(|s: String| s@) == path_shape(p@).parts,
{
    let pieces = split_char(p, '/');
    let ghost pv = pieces@.map_values(|s: String| s@);
    let mut r: Vec<String> = Vec::new();
    let mut i: usize = 0;
    while i < pieces.len()
        invariant
            i <= pieces@.len(),
            pv == pieces@.map_values(|s: String| s@),
            pv == split_on(p@, '/'),
            r@.map_values(|s: String| s@) =~= normal_parts(pv.take(i as int)),
        decreases pieces.len() - i,
    {
        proof {
            assert(pv.take(i + 1).drop_last() =~= pv.take(i as int));
            assert(pv.take(i + 1).last() == pieces@[i as int]@);
        }
        let piece = pieces[i].as_str();
        if !(piece.unicode_len() == 0 || is_dot_str(piece)) {
            let ghost before = r@;
            r.push(pieces[i].clone());
            proof {
                assert(r@.map_values(|s: String| s@) =~= before.map_values(|s: String| s@).push(
                    pieces@[i as int]@,
                ));
            }
        }
        i = i + 1;
    }
    proof {
        assert(pv.take(pieces@.len() as int) =~= pv);
    }
    r
}

/// Whether `p` begins at the root and whether it begins with a `.` component.
fn path_prefix_flags(p: &str) -> (r: (bool, bool))
    ensures
        r.0 == path_shape(p@).rooted,
        r.1 == path_shape(p@).current_dir,
{
    let n = p.unicode_len();
    let rooted = n > 0 && p.get_char(0) == '/';
    let pieces = split_char(p, '/');
    proof {
        lemma_split_nonempty(p@, '/');
        assert(pieces@.map_values(|s: String| s@)[0] == pieces@[0]@);
    }
    let first_dot = is_dot_str(pieces[0].as_str());
    (rooted, !rooted && first_dot)
}

fn same_parts(a: &Vec<String>, b: &Vec<String>) -> (r: bool)
    ensures
        r == (a@.map_values(|s: String| s@) == b@.map_values(|s: String| s@)),
{
    let ghost av = a@.map_values(|s: String| s@);
    let ghost bv = b@.map_values(|s: String| s@);
    if a.len() != b.len() {
        proof {
            assert(av.len() != bv.len());
        }
        return false;
    }
    let mut i: usize = 0;
    while i < a.len()
        invariant
            a@.len() == b@.len(),
            i <= a@.len(),
            av == a@.map_values(|s: String| s@),
            bv == b@.map_values(|s: String| s@),
            forall|j: int| 0 <= j < i ==> av[j] == bv[j],
        decreases a.len() - i,
    {
        if !str_eq(a[i].as_str(), b[i].as_str()) {
            proof {
                assert(av[i as int] != bv[i as int]);
            }
            return false;
        }
        i = i + 1;
    }
    proof {
        assert(av =~= bv);
    }
    true
}

fn same_unix_path_exec(a: &str, b: &str) -> (r: bool)
    ensures
        r == same_unix_path(a@, b@),
{
    let fa = path_prefix_flags(a);
    let fb = path_prefix_flags(b);
    let pa = path_parts(a);
    let pb = path_parts(b);
    let same = fa.0 == fb.0 && fa.1 == fb.1 && same_parts(&pa, &pb);
    proof {
        if same {
            assert(path_shape(a@) == path_shape(b@));
        }
    }
    same
}

/// `p` with each `sep` replaced by `/`.
fn slashed(p: &str, sep: char) -> (r: String)
    ensures
        r@ == with_slashes(p@, sep),
{
    let pieces = split_char(p, sep);
    proof {
        reveal_strlit("/");
        assert(pieces@.map_values(|s: String| s@).skip(0) =~= pieces@.map_values(|s: String| s@));
    }
    join_parts(&pieces, 0, "/")
}

/// Whether two paths are equal component by component, as `Path`'s `==` compares them
/// on a platform whose main separator is `sep` (`/` also separating).
pub fn same_path(a: &str, b: &str, sep: char) -> (r: bool)
    ensures
        r == same_path_spec(a@, b@, sep),
{
    let sa = slashed(a, sep);
    let sb = slashed(b, sep);
    same_unix_path_exec(sa.as_str(), sb.as_str())
}

/// Joins the strings with `sep` between them.
pub fn join_parts(parts: &Vec<String>, from: usize, sep: &str) -> (r: String)
    requires
        from <= parts@.len(),
        sep@.len() == 1,
    ensures
        r@ == join_with(parts@.map_values(|s: String| s@).skip(from as int), sep@[0]),
{
    let ghost pv = parts@.map_values(|s: String| s@).skip(from as int);
    let mut r = String::new();
    let mut i: usize = from;
    proof {
        assert(pv.take(0) =~= Seq::<Seq<char>>::empty());
    }
    while i < parts.len()
        invariant
            from <= i <= parts@.len(),
            sep@.len() == 1,
            pv == parts@.map_values(|s: String| s@).skip(from as int),
            r@ == join_with(pv.take(i - from), sep@[0]),
        decreases parts.len() - i,
    {
        let ghost k = i - from;
        proof {
            assert(pv.take(k + 1).drop_last() =~= pv.take(k));
            assert(pv.take(k + 1).last() == parts@[i as int]@);
            assert(sep@ =~= seq![sep@[0]]);
        }
        if i > from {
            r.append(sep);
            proof {
                assert(r@ == join_with(pv.take(k), sep@[0]).push(sep@[0]));
            }
        }
        let ghost mid = r@;
        r.append(parts[i].as_str());
        proof {
            if k == 0 {
                assert(r@ =~= pv.take(1)[0]);
            } else {
                assert(r@ =~= mid + pv.take(k + 1).last());
            }
        }
        i = i + 1;
    }
    proof {
        assert(pv.take(parts@.len() - from) =~= pv);
    }
    r
}

} // verus!

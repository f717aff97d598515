//! Where the entries of a package tarball are unpacked, worked out on the raw bytes of
//! their paths (a Unix path is bytes, not necessarily UTF-8 text).

use vstd::prelude::*;

verus! {

/// The pieces of `s` between occurrences of the byte `sep`: always at least one, and
/// `n` separators give `n + 1` pieces.
pub open spec fn split_bytes(s: Seq<u8>, sep: u8) -> Seq<Seq<u8>>
    decreases s.len(),
{
    if s.len() == 0 {
        seq![Seq::<u8>::empty()]
    } else {
        let rest = split_bytes(s.drop_last(), sep);
        if s.last() == sep {
            rest.push(Seq::<u8>::empty())
        } else {
            rest.update(rest.len() - 1, rest.last().push(s.last()))
        }
    }
}

proof fn lemma_split_bytes_nonempty(s: Seq<u8>, sep: u8)
    ensures
        split_bytes(s, sep).len() >= 1,
    decreases s.len(),
{
    if s.len() > 0 {
        lemma_split_bytes_nonempty(s.drop_last(), sep);
    }
}

/// The bytes of `/`, the Unix path separator.
pub open spec fn slash() -> u8 {
    47u8
}

/// Whether a piece is the single byte `.`.
pub open spec fn is_dot_piece(p: Seq<u8>) -> bool {
    p.len() == 1 && p[0] == 46u8
}

/// The bytes of the name `package`, the top directory of an npm tarball.
pub open spec fn package_dir() -> Seq<u8> {
    seq![112u8, 97u8, 99u8, 107u8, 97u8, 103u8, 101u8]
}

/// The pieces that are path components: neither empty nor `.`.
pub open spec fn component_pieces(pieces: Seq<Seq<u8>>) -> Seq<Seq<u8>>
    decreases pieces.len(),
{
    if pieces.len() == 0 {
        Seq::<Seq<u8>>::empty()
    } else {
        let rest = component_pieces(pieces.drop_last());
        if pieces.last().len() == 0 || is_dot_piece(pieces.last()) {
            rest
        } else {
            rest.push(pieces.last())
        }
    }
}

/// The pieces joined with `sep` between them.
pub open spec fn join_bytes(parts: Seq<Seq<u8>>, sep: u8) -> Seq<u8>
    decreases parts.len(),
{
    if parts.len() == 0 {
        Seq::<u8>::empty()
    } else if parts.len() == 1 {
        parts[0]
    } else {
        join_bytes(parts.drop_last(), sep).push(sep) + parts.last()
    }
}

/// Where an entry of a package tarball lands under the plugin directory, as
/// `Path::strip_prefix("package")` on Unix decides it: a relative path whose first
/// component is `package` (not after a leading `.`) loses it and keeps its remaining
/// components, other paths stay as they are, and an entry that leaves nothing (the
/// `package` directory itself, or an empty path) is skipped.
pub open spec fn entry_target_spec(entry: Seq<u8>) -> Option<Seq<u8>> {
    let pieces = split_bytes(entry, slash());
    let rooted = entry.len() > 0 && entry[0] == slash();
    let current_dir = !rooted && is_dot_piece(pieces[0]);
    let parts = component_pieces(pieces);
    if !rooted && !current_dir && parts.len() > 0 && parts[0] == package_dir() {
        if parts.len() == 1 {
            None
        } else {
            Some(join_bytes(parts.drop_first(), slash()))
        }
    } else if entry.len() == 0 {
        None
    } else {
        Some(entry)
    }
}

proof fn lemma_split_bytes_without_sep(x: Seq<u8>, sep: u8)
    requires
        forall|i: int| 0 <= i < x.len() ==> x[i] != sep,
    ensures
        split_bytes(x, sep) == seq![x],
    decreases x.len(),
{
    if x.len() > 0 {
        lemma_split_bytes_without_sep(x.drop_last(), sep);
        assert(x.drop_last().push(x.last()) =~= x);
        assert(seq![x.drop_last()].update(0, x.drop_last().push(x.last())) =~= seq![x]);
    } else {
        assert(x =~= Seq::<u8>::empty());
        assert(split_bytes(x, sep) =~= seq![x]);
    }
}

proof fn lemma_split_bytes_concat(x: Seq<u8>, y: Seq<u8>, sep: u8)
    ensures
        split_bytes(x + seq![sep] + y, sep) == split_bytes(x, sep) + split_bytes(y, sep),
    decreases y.len(),
{
    lemma_split_bytes_nonempty(x, sep);
    if y.len() == 0 {
        assert((x + seq![sep] + y).drop_last() =~= x);
        assert((x + seq![sep] + y).last() == sep);
        assert(split_bytes(y, sep) =~= seq![Seq::<u8>::empty()]);
        assert(split_bytes(x, sep).push(Seq::<u8>::empty()) =~= split_bytes(x, sep) + split_bytes(y, sep));
    } else {
        let yd = y.drop_last();
        lemma_split_bytes_concat(x, yd, sep);
        lemma_split_bytes_nonempty(yd, sep);
        assert((x + seq![sep] + y).drop_last() =~= x + seq![sep] + yd);
        assert((x + seq![sep] + y).last() == y.last());
        assert(y.drop_last() == yd);
        let a = split_bytes(x, sep);
        let b = split_bytes(yd, sep);
        if y.last() == sep {
            assert((a + b).push(Seq::<u8>::empty()) =~= a + b.push(Seq::<u8>::empty()));
        } else {
            assert((a + b).update((a + b).len() - 1, (a + b).last().push(y.last())) =~= a + b.update(
                b.len() - 1,
                b.last().push(y.last()),
            ));
        }
    }
}

proof fn lemma_components_concat(a: Seq<Seq<u8>>, b: Seq<Seq<u8>>)
    ensures
        component_pieces(a + b) == component_pieces(a) + component_pieces(b),
    decreases b.len(),
{
    if b.len() == 0 {
        assert(a + b =~= a);
        assert(component_pieces(a) + component_pieces(b) =~= component_pieces(a));
    } else {
        lemma_components_concat(a, b.drop_last());
        assert((a + b).drop_last() =~= a + b.drop_last());
        assert((a + b).last() == b.last());
        let ca = component_pieces(a);
        let cb = component_pieces(b.drop_last());
        assert((ca + cb).push(b.last()) =~= ca + cb.push(b.last()));
    }
}

proof fn lemma_components_of_normal(p: Seq<Seq<u8>>)
    requires
        forall|i: int| 0 <= i < p.len() ==> p[i].len() > 0 && !is_dot_piece(#[trigger] p[i]),
    ensures
        component_pieces(p) == p,
    decreases p.len(),
{
    if p.len() > 0 {
        let d = p.drop_last();
        assert forall|i: int| 0 <= i < d.len() implies d[i].len() > 0 && !is_dot_piece(#[trigger] d[i]) by {
            assert(d[i] == p[i]);
        }
        lemma_components_of_normal(d);
        assert(p.last() == p[p.len() - 1]);
        assert(d.push(p.last()) =~= p);
    } else {
        assert(component_pieces(p) =~= p);
    }
}

proof fn lemma_join_extend_last(p: Seq<Seq<u8>>, sep: u8, c: u8)
    requires
        p.len() > 0,
    ensures
        join_bytes(p.update(p.len() - 1, p.last().push(c)), sep) == join_bytes(p, sep).push(c),
{
    let q = p.update(p.len() - 1, p.last().push(c));
    if p.len() == 1 {
        assert(q[0] == p[0].push(c));
    } else {
        assert(q.drop_last() =~= p.drop_last());
        assert(q.last() == p.last().push(c));
        let j = join_bytes(p.drop_last(), sep).push(sep);
        assert(j + p.last().push(c) =~= (j + p.last()).push(c));
    }
}

/// Joining the pieces of a split with the separator gives the bytes back.
proof fn lemma_join_split(q: Seq<u8>, sep: u8)
    ensures
        join_bytes(split_bytes(q, sep), sep) == q,
    decreases q.len(),
{
    if q.len() == 0 {
        assert(q =~= Seq::<u8>::empty());
    } else {
        let qd = q.drop_last();
        lemma_join_split(qd, sep);
        lemma_split_bytes_nonempty(qd, sep);
        let p = split_bytes(qd, sep);
        if q.last() == sep {
            let r = p.push(Seq::<u8>::empty());
            assert(r.drop_last() =~= p);
            assert(r.last() == Seq::<u8>::empty());
            assert(join_bytes(p, sep).push(sep) + Seq::<u8>::empty() =~= q);
        } else {
            lemma_join_extend_last(p, sep, q.last());
            assert(qd.push(q.last()) =~= q);
        }
    }
}

/// Only the `package` directory is removed from an entry under it: for every relative
/// path `q` made of normal components (none empty, none `.`) joined by single `/`,
/// the entry `package/q` is unpacked at `q`, however many components `q` has.
pub proof fn lemma_only_package_dir_removed(q: Seq<u8>)
    requires
        forall|i: int| 0 <= i < split_bytes(q, slash()).len() ==> split_bytes(q, slash())[i].len() > 0
            && !is_dot_piece(#[trigger] split_bytes(q, slash())[i]),
    ensures
        entry_target_spec(package_dir() + seq![slash()] + q) == Some(q),
{
    let e = package_dir() + seq![slash()] + q;
    let pieces = split_bytes(e, slash());
    lemma_split_bytes_concat(package_dir(), q, slash());
    lemma_split_bytes_without_sep(package_dir(), slash());
    let sq = split_bytes(q, slash());
    lemma_split_bytes_nonempty(q, slash());
    assert(pieces == seq![package_dir()] + sq);
    assert(pieces[0] == package_dir());
    assert(e[0] == 112u8);
    lemma_components_concat(seq![package_dir()], sq);
    lemma_components_of_normal(sq);
    assert(component_pieces(seq![package_dir()]) =~= seq![package_dir()]) by {
        let one = seq![package_dir()];
        assert(one.drop_last() =~= Seq::<Seq<u8>>::empty());
        assert(component_pieces(one.drop_last()) =~= Seq::<Seq<u8>>::empty());
        assert(one.last() == package_dir());
        assert(package_dir().len() == 7);
        assert(!is_dot_piece(package_dir()));
        assert(Seq::<Seq<u8>>::empty().push(package_dir()) =~= one);
    }
    let parts = component_pieces(pieces);
    assert(parts == seq![package_dir()] + sq);
    assert(parts[0] == package_dir());
    assert(parts.drop_first() =~= sq);
    lemma_join_split(q, slash());
}

/// The first piece of a split is the bytes before the first separator: all of them when
/// there is just one piece, else a prefix followed by a separator.
proof fn lemma_first_piece_prefix(e: Seq<u8>, sep: u8)
    ensures
        split_bytes(e, sep).len() >= 1,
        split_bytes(e, sep)[0].len() <= e.len(),
        e.take(split_bytes(e, sep)[0].len() as int) == split_bytes(e, sep)[0],
        split_bytes(e, sep).len() == 1 ==> split_bytes(e, sep)[0] == e,
        split_bytes(e, sep).len() > 1 ==> split_bytes(e, sep)[0].len() < e.len() && e[split_bytes(
            e,
            sep,
        )[0].len() as int] == sep,
    decreases e.len(),
{
    lemma_split_bytes_nonempty(e, sep);
    if e.len() == 0 {
        assert(e.take(0) =~= Seq::<u8>::empty());
    } else {
        let ed = e.drop_last();
        lemma_first_piece_prefix(ed, sep);
        let p = split_bytes(ed, sep);
        let k = p[0].len() as int;
        assert(e.take(k) =~= ed.take(k));
        if e.last() != sep && p.len() == 1 {
            assert(split_bytes(e, sep)[0] == p[0].push(e.last()));
            assert(e =~= ed.push(e.last()));
            assert(e.take(e.len() as int) =~= e);
        } else {
            assert(split_bytes(e, sep)[0] == p[0]);
            if p.len() > 1 {
                assert(e[k] == ed[k]);
            } else {
                assert(e[ed.len() as int] == e.last());
            }
        }
    }
}

/// An entry that is not under the `package` directory (its text before the first `/`
/// is something else, a leading `/` or `.` included) is unpacked at its own path,
/// unchanged; only an empty entry is skipped.
pub proof fn lemma_other_entries_kept(e: Seq<u8>)
    requires
        split_bytes(e, slash())[0] != package_dir(),
    ensures
        e.len() > 0 ==> entry_target_spec(e) == Some(e),
        e.len() == 0 ==> entry_target_spec(e) is None,
{
    let pieces = split_bytes(e, slash());
    lemma_split_bytes_nonempty(e, slash());
    lemma_first_piece_prefix(e, slash());
    let rooted = e.len() > 0 && e[0] == slash();
    if !rooted && !is_dot_piece(pieces[0]) && pieces[0].len() > 0 {
        lemma_components_concat(seq![pieces[0]], pieces.drop_first());
        assert(seq![pieces[0]] + pieces.drop_first() =~= pieces);
        let one = seq![pieces[0]];
        assert(one.drop_last() =~= Seq::<Seq<u8>>::empty());
        assert(component_pieces(one.drop_last()) =~= Seq::<Seq<u8>>::empty());
        assert(component_pieces(one) =~= one);
        assert(component_pieces(pieces)[0] == pieces[0]);
    }
    if e.len() == 0 {
        assert(pieces.drop_last() =~= Seq::<Seq<u8>>::empty());
        assert(component_pieces(pieces.drop_last()) =~= Seq::<Seq<u8>>::empty());
        assert(component_pieces(pieces) =~= Seq::<Seq<u8>>::empty());
    }
}

fn copy_bytes(v: &[u8]) -> (r: Vec<u8>)
    ensures
        r@ == v@,
{
    let mut r: Vec<u8> = Vec::new();
    let mut i: usize = 0;
    while i < v.len()
        invariant
            i <= v@.len(),
            r@ == v@.take(i as int),
        decreases v.len() - i,
    {
        r.push(v[i]);
        proof {
            assert(v@.take(i + 1) =~= v@.take(i as int).push(v@[i as int]));
        }
        i = i + 1;
    }
    proof {
        assert(v@.take(v@.len() as int) =~= v@);
    }
    r
}

pub open spec fn pieces_view(v: Seq<Vec<u8>>) -> Seq<Seq<u8>> {
    v.map_values(|p: Vec<u8>| p@)
}

/// Splits `s` at each `sep`, as `split_bytes`.
fn split_at_byte(s: &[u8], sep: u8) -> (parts: Vec<Vec<u8>>)
    ensures
        pieces_view(parts@) == split_bytes(s@, sep),
{
    let mut parts: Vec<Vec<u8>> = Vec::new();
    let mut cur: Vec<u8> = Vec::new();
    let mut i: usize = 0;
    proof {
        assert(s@.take(0) =~= Seq::<u8>::empty());
        assert(pieces_view(parts@).push(cur@) =~= seq![Seq::<u8>::empty()]);
    }
    while i < s.len()
        invariant
            i <= s@.len(),
            split_bytes(s@.take(i as int), sep) =~= pieces_view(parts@).push(cur@),
        decreases s.len() - i,
    {
        let b = s[i];
        proof {
            assert(s@.take(i + 1).drop_last() =~= s@.take(i as int));
            assert(s@.take(i + 1).last() == b);
        }
        if b == sep {
            let ghost before = parts@;
            let piece = copy_bytes(cur.as_slice());
            parts.push(piece);
            cur = Vec::new();
            proof {
                assert(pieces_view(parts@) =~= pieces_view(before).push(piece@));
                assert(cur@ =~= Seq::<u8>::empty());
            }
        } else {
            let ghost old_cur = cur@;
            cur.push(b);
            proof {
                assert(cur@ =~= old_cur.push(b));
            }
        }
        i = i + 1;
    }
    let ghost before = parts@;
    parts.push(cur);
    proof {
        assert(s@.take(s@.len() as int) =~= s@);
        assert(pieces_view(parts@) =~= pieces_view(before).push(parts@[parts@.len() - 1]@));
    }
    parts
}

fn is_package_dir(p: &Vec<u8>) -> (r: bool)
    ensures
        r == (p@ == package_dir()),
{
    let r = p.len() == 7 && p[0] == 112u8 && p[1] == 97u8 && p[2] == 99u8 && p[3] == 107u8
        && p[4] == 97u8 && p[5] == 103u8 && p[6] == 101u8;
    proof {
        if r {
            assert(p@ =~= package_dir());
        }
    }
    r
}

/// The pieces from `from` on, joined with `/`.
fn join_with_slash(parts: &Vec<Vec<u8>>, from: usize) -> (r: Vec<u8>)
    requires
        from <= parts@.len(),
    ensures
        r@ == join_bytes(pieces_view(parts@).skip(from as int), slash()),
{
    let ghost pv = pieces_view(parts@).skip(from as int);
    let mut r: Vec<u8> = Vec::new();
    let mut i: usize = from;
    proof {
        assert(pv.take(0) =~= Seq::<Seq<u8>>::empty());
    }
    while i < parts.len()
        invariant
            from <= i <= parts@.len(),
            pv == pieces_view(parts@).skip(from as int),
            r@ == join_bytes(pv.take(i - from), slash()),
        decreases parts.len() - i,
    {
        let ghost k = i - from;
        proof {
            assert(pv.take(k + 1).drop_last() =~= pv.take(k));
            assert(pv.take(k + 1).last() == parts@[i as int]@);
        }
        if i > from {
            r.push(47u8);
        }
        let ghost mid = r@;
        let mut j: usize = 0;
        while j < parts[i].len()
            invariant
                i < parts@.len(),
                j <= parts@[i as int]@.len(),
                r@ == mid + parts@[i as int]@.take(j as int),
            decreases parts@[i as int]@.len() - j,
        {
            r.push(parts[i][j]);
            proof {
                assert(parts@[i as int]@.take(j + 1) =~= parts@[i as int]@.take(j as int).push(
                    parts@[i as int]@[j as int],
                ));
            }
            j = j + 1;
        }
        proof {
            assert(parts@[i as int]@.take(parts@[i as int]@.len() as int) =~= parts@[i as int]@);
            if k == 0 {
                assert(r@ =~= pv.take(1)[0]);
            } else {
                assert(r@ =~= join_bytes(pv.take(k), slash()).push(slash()) + pv.take(k + 1).last());
            }
        }
        i = i + 1;
    }
    proof {
        assert(pv.take(parts@.len() - from) =~= pv);
    }
    r
}

/// The relative path, as bytes, at which a tarball entry is unpacked, or `None` to skip
/// it.
pub fn entry_target(entry: &[u8]) -> (r: Option<Vec<u8>>)
    ensures
        match r {
            Some(t) => entry_target_spec(entry@) == Some(t@),
            None => entry_target_spec(entry@) is None,
        },
{
    let pieces = split_at_byte(entry, 47u8);
    let ghost pv = pieces_view(pieces@);
    proof {
        lemma_split_bytes_nonempty(entry@, slash());
        assert(pv[0] == pieces@[0]@);
    }
    let rooted = entry.len() > 0 && entry[0] == 47u8;
    let first_dot = pieces[0].len() == 1 && pieces[0][0] == 46u8;
    let mut parts: Vec<Vec<u8>> = Vec::new();
    let mut i: usize = 0;
    proof {
        assert(pv.take(0) =~= Seq::<Seq<u8>>::empty());
    }
    while i < pieces.len()
        invariant
            i <= pieces@.len(),
            pv == pieces_view(pieces@),
            pieces_view(parts@) =~= component_pieces(pv.take(i as int)),
        decreases pieces.len() - i,
    {
        proof {
            assert(pv.take(i + 1).drop_last() =~= pv.take(i as int));
            assert(pv.take(i + 1).last() == pieces@[i as int]@);
        }
        let n = pieces[i].len();
        if !(n == 0 || (n == 1 && pieces[i][0] == 46u8)) {
            let ghost before = parts@;
            let piece = copy_bytes(pieces[i].as_slice());
            parts.push(piece);
            proof {
                assert(pieces_view(parts@) =~= pieces_view(before).push(piece@));
            }
        }
        i = i + 1;
    }
    proof {
        assert(pv.take(pieces@.len() as int) =~= pv);
    }
    let ghost cv = pieces_view(parts@);
    if !rooted && !first_dot && parts.len() > 0 && is_package_dir(&parts[0]) {
        proof {
            assert(cv[0] == parts@[0]@);
        }
        if parts.len() == 1 {
            return None;
        }
        proof {
            assert(cv.drop_first() =~= cv.skip(1));
        }
        return Some(join_with_slash(&parts, 1));
    }
    proof {
        if parts.len() > 0 {
            assert(cv[0] == parts@[0]@);
        }
    }
    if entry.len() == 0 {
        return None;
    }
    Some(copy_bytes(entry))
}

} // verus!

//! Dotted engine version strings (`5.7.4`): numeric components and their precedence.

use vstd::prelude::*;
use crate::text::{split_char, split_on, lemma_split_nonempty};

verus! {

pub open spec fn is_digit(c: char) -> bool {
    '0' <= c && c <= '9'
}

pub open spec fn digit_value(c: char) -> nat {
    (c as int - '0' as int) as nat
}

/// Decimal value of a string of digits.
pub open spec fn digits_value(d: Seq<char>) -> nat
    decreases d.len(),
{
    if d.len() == 0 {
        0
    } else {
        digits_value(d.drop_last()) * 10 + digit_value(d.last())
    }
}

pub open spec fn all_digits(d: Seq<char>) -> bool {
    forall|i: int| 0 <= i < d.len() ==> is_digit(#[trigger] d[i])
}

/// `str::parse::<u64>`: an optional `+` followed by one or more ASCII digits whose
/// value fits in a `u64`; anything else is an error.
pub open spec fn parse_u64_spec(s: Seq<char>) -> Option<u64> {
    let d = if s.len() > 0 && s[0] == '+' { s.drop_first() } else { s };
    if d.len() > 0 && all_digits(d) && digits_value(d) <= u64::MAX {
        Some(digits_value(d) as u64)
    } else {
        None
    }
}

proof fn lemma_digits_prefix_le(d: Seq<char>, k: int)
    requires
        0 <= k <= d.len(),
    ensures
        digits_value(d.take(k)) <= digits_value(d),
    decreases d.len(),
{
    if k < d.len() {
        lemma_digits_prefix_le(d.drop_last(), k);
        assert(d.drop_last().take(k) =~= d.take(k));
    } else {
        assert(d.take(k) =~= d);
    }
}

/// Parses `s` as `str::parse::<u64>` does.
pub fn parse_u64(s: &str) -> (r: Option<u64>)
    ensures
        r == parse_u64_spec(s@),
{
    let n = s.unicode_len();
    let mut start: usize = 0;
    if n > 0 && s.get_char(0) == '+' {
        start = 1;
    }
    let ghost d = if s@.len() > 0 && s@[0] == '+' { s@.drop_first() } else { s@ };
    proof {
        assert(parse_u64_spec(s@) == (if d.len() > 0 && all_digits(d) && digits_value(d) <= u64::MAX {
            Some(digits_value(d) as u64)
        } else {
            None
        }));
        if start == 1 {
            assert(d =~= s@.subrange(1, n as int));
        } else {
            assert(d =~= s@.subrange(0, n as int));
        }
    }
    if start == n {
        return None;
    }
    let mut v: u64 = 0;
    let mut i: usize = start;
    proof {
        assert(d.take(0) =~= Seq::<char>::empty());
    }
    while i < n
        invariant
            start <= i <= n == s@.len(),
            start < n,
            d =~= s@.subrange(start as int, n as int),
            parse_u64_spec(s@) == (if d.len() > 0 && all_digits(d) && digits_value(d) <= u64::MAX {
                Some(digits_value(d) as u64)
            } else {
                None
            }),
            all_digits(d.take(i - start)),
            v == digits_value(d.take(i - start)),
        decreases n - i,
    {
        let c = s.get_char(i);
        let ghost k = i - start;
        proof {
            assert(d[k] == c);
            assert(d.take(k + 1).drop_last() =~= d.take(k));
            assert(d.take(k + 1).last() == c);
        }
        if !('0' <= c && c <= '9') {
            proof {
                assert(!is_digit(d[k]));
                assert(!all_digits(d));
            }
            return None;
        }
        let dv = (c as u32 - '0' as u32) as u64;
        proof {
            assert(dv == digit_value(c));
        }
        proof {
            assert(digits_value(d.take(k + 1)) == v * 10 + dv);
        }
        let m = v.checked_mul(10);
        match m {
            None => {
                proof {
                    lemma_digits_prefix_le(d, k + 1);
                }
                return None;
            },
            Some(m) => {
                match m.checked_add(dv) {
                    None => {
                        proof {
                            lemma_digits_prefix_le(d, k + 1);
                        }
                        return None;
                    },
                    Some(w) => {
                        v = w;
                    },
                }
            },
        }
        i = i + 1;
        proof {
            assert forall|j: int| 0 <= j < d.take(k + 1).len() implies is_digit(#[trigger] d.take(k + 1)[j]) by {
                if j < k {
                    assert(d.take(k + 1)[j] == d.take(k)[j]);
                }
            }
        }
    }
    proof {
        assert(d.take(n - start) =~= d);
    }
    Some(v)
}

/// One dot-separated part of a version: a number, or text that is not one.
pub enum PartModel {
    Num(u64),
    Text(Seq<char>),
}

/// A part of a version as it is compared.
#[derive(Debug)]
pub enum Part {
    Num(u64),
    Text(String),
}

impl View for Part {
    type V = PartModel;

    open spec fn view(&self) -> PartModel {
        match self {
            Part::Num(n) => PartModel::Num(*n),
            Part::Text(t) => PartModel::Text(t@),
        }
    }
}

pub open spec fn part_of(p: Seq<char>) -> PartModel {
    match parse_u64_spec(p) {
        Some(v) => PartModel::Num(v),
        None => PartModel::Text(p),
    }
}

/// The parts of a dotted version.
pub open spec fn version_components(s: Seq<char>) -> Seq<PartModel> {
    split_on(s, '.').map_values(|p: Seq<char>| part_of(p))
}

/// Parts of `s`, as `version_components`.
pub fn components(s: &str) -> (r: Vec<Part>)
    ensures
        r@.map_values(|p: Part| p@) == version_components(s@),
{
    let parts = split_char(s, '.');
    let mut r: Vec<Part> = Vec::new();
    let mut i: usize = 0;
    while i < parts.len()
        invariant
            i <= parts@.len(),
            parts@.map_values(|p: String| p@) == split_on(s@, '.'),
            r@.map_values(|p: Part| p@) =~= parts@.take(i as int).map_values(|p: String| part_of(p@)),
        decreases parts.len() - i,
    {
        let v = match parse_u64(parts[i].as_str()) {
            Some(v) => Part::Num(v),
            None => Part::Text(parts[i].clone()),
        };
        let ghost before = r@;
        r.push(v);
        proof {
            assert(parts@.take(i + 1) =~= parts@.take(i as int).push(parts@[i as int]));
            assert(r@.map_values(|p: Part| p@) =~= before.map_values(|p: Part| p@).push(v@));
        }
        i = i + 1;
    }
    proof {
        assert(parts@.take(parts@.len() as int) =~= parts@);
        let a = parts@.map_values(|p: String| part_of(p@));
        let b = version_components(s@);
        assert(a.len() == b.len());
        assert forall|j: int| 0 <= j < a.len() implies a[j] == b[j] by {
            assert(parts@.map_values(|p: String| p@)[j] == parts@[j]@);
        }
        assert(a =~= b);
    }
    r
}

/// Which of two versions comes first.
#[derive(Clone, Copy, Debug, PartialEq, Eq, Structural)]
pub enum Precedence {
    Before,
    Same,
    After,
}

pub open spec fn flip(p: Precedence) -> Precedence {
    match p {
        Precedence::Before => Precedence::After,
        Precedence::Same => Precedence::Same,
        Precedence::After => Precedence::Before,
    }
}

/// Text compared character by character (code point order), a proper prefix first.
pub open spec fn text_precedence(a: Seq<char>, b: Seq<char>) -> Precedence
    decreases a.len(),
{
    if a.len() == 0 && b.len() == 0 {
        Precedence::Same
    } else if a.len() == 0 {
        Precedence::Before
    } else if b.len() == 0 {
        Precedence::After
    } else if a[0] < b[0] {
        Precedence::Before
    } else if a[0] > b[0] {
        Precedence::After
    } else {
        text_precedence(a.drop_first(), b.drop_first())
    }
}

/// The value a part is compared by first: a number's own value, 0 for a part that is
/// not a number.
pub open spec fn part_value(x: PartModel) -> u64 {
    match x {
        PartModel::Num(n) => n,
        PartModel::Text(_) => 0,
    }
}

/// The text that orders parts of equal value: empty for a number, the part itself for a
/// part that is not one.
pub open spec fn part_text(x: PartModel) -> Seq<char> {
    match x {
        PartModel::Num(_) => Seq::<char>::empty(),
        PartModel::Text(t) => t,
    }
}

/// Two parts compared: by value (a part that is not a number counts as 0), then, between
/// parts of equal value, by their text lexicographically (a number's text being empty).
pub open spec fn part_precedence(x: PartModel, y: PartModel) -> Precedence {
    if part_value(x) < part_value(y) {
        Precedence::Before
    } else if part_value(x) > part_value(y) {
        Precedence::After
    } else {
        text_precedence(part_text(x), part_text(y))
    }
}

/// The part at position `i`; a missing part counts as the number 0.
pub open spec fn component_at(a: Seq<PartModel>, i: int) -> PartModel {
    if 0 <= i < a.len() { a[i] } else { PartModel::Num(0) }
}

pub open spec fn max_len(a: Seq<PartModel>, b: Seq<PartModel>) -> int {
    if a.len() >= b.len() { a.len() as int } else { b.len() as int }
}

/// Compares part lists from position `i` on, the shorter one padded with zeros.
pub open spec fn precedence_from(a: Seq<PartModel>, b: Seq<PartModel>, i: int) -> Precedence
    decreases max_len(a, b) - i,
{
    if i >= max_len(a, b) {
        Precedence::Same
    } else if part_precedence(component_at(a, i), component_at(b, i)) != Precedence::Same {
        part_precedence(component_at(a, i), component_at(b, i))
    } else {
        precedence_from(a, b, i + 1)
    }
}

/// Precedence of version `a` against version `b`: part by part, each part by value
/// (0 for a part that is not a number), ties settled by the parts' text lexicographically.
pub open spec fn version_precedence(a: Seq<char>, b: Seq<char>) -> Precedence {
    precedence_from(version_components(a), version_components(b), 0)
}

/// Compares two texts character by character.
pub fn compare_text(a: &str, b: &str) -> (r: Precedence)
    ensures
        r == text_precedence(a@, b@),
{
    let n = a.unicode_len();
    let m = b.unicode_len();
    let mut i: usize = 0;
    proof {
        assert(a@.skip(0) =~= a@);
        assert(b@.skip(0) =~= b@);
    }
    while i < n && i < m
        invariant
            n == a@.len(),
            m == b@.len(),
            i <= n,
            i <= m,
            text_precedence(a@, b@) == text_precedence(a@.skip(i as int), b@.skip(i as int)),
        decreases n - i,
    {
        let x = a.get_char(i);
        let y = b.get_char(i);
        proof {
            assert(a@.skip(i as int)[0] == x);
            assert(b@.skip(i as int)[0] == y);
            assert(a@.skip(i as int).drop_first() =~= a@.skip(i + 1));
            assert(b@.skip(i as int).drop_first() =~= b@.skip(i + 1));
        }
        if x < y {
            return Precedence::Before;
        }
        if x > y {
            return Precedence::After;
        }
        i = i + 1;
    }
    if i == n && i == m {
        Precedence::Same
    } else if i == n {
        Precedence::Before
    } else {
        Precedence::After
    }
}

fn part_key(x: &Part) -> (r: (u64, &str))
    ensures
        r.0 == part_value(x@),
        r.1@ == part_text(x@),
{
    match x {
        Part::Num(n) => {
            proof {
                reveal_strlit("");
            }
            (*n, "")
        },
        Part::Text(t) => (0, t.as_str()),
    }
}

fn compare_parts(x: &Part, y: &Part) -> (r: Precedence)
    ensures
        r == part_precedence(x@, y@),
{
    let (a, s) = part_key(x);
    let (b, t) = part_key(y);
    if a < b {
        Precedence::Before
    } else if a > b {
        Precedence::After
    } else {
        compare_text(s, t)
    }
}

/// Compares two dotted version strings part by part: by value, a part that is not a
/// number counting as 0 and a missing part as the number 0; parts of equal value by
/// their text, lexicographically (a number's text being empty).
pub fn compare_versions(a: &str, b: &str) -> (r: Precedence)
    ensures
        r == version_precedence(a@, b@),
{
    let ca = components(a);
    let cb = components(b);
    let ghost va = ca@.map_values(|p: Part| p@);
    let ghost vb = cb@.map_values(|p: Part| p@);
    let len = if ca.len() >= cb.len() { ca.len() } else { cb.len() };
    let zero = Part::Num(0);
    let mut i: usize = 0;
    while i < len
        invariant
            va == ca@.map_values(|p: Part| p@),
            vb == cb@.map_values(|p: Part| p@),
            va == version_components(a@),
            vb == version_components(b@),
            len == max_len(va, vb),
            zero@ == PartModel::Num(0),
            i <= len,
            precedence_from(va, vb, 0) == precedence_from(va, vb, i as int),
        decreases len - i,
    {
        let x = if i < ca.len() { &ca[i] } else { &zero };
        let y = if i < cb.len() { &cb[i] } else { &zero };
        proof {
            assert(x@ == component_at(va, i as int));
            assert(y@ == component_at(vb, i as int));
        }
        let p = compare_parts(x, y);
        if p != Precedence::Same {
            return p;
        }
        i = i + 1;
    }
    Precedence::Same
}

proof fn lemma_text_laws(a: Seq<char>, b: Seq<char>, c: Seq<char>)
    ensures
        text_precedence(a, a) == Precedence::Same,
        text_precedence(b, a) == flip(text_precedence(a, b)),
        text_precedence(a, b) == Precedence::Same ==> a == b,
        text_precedence(a, b) != Precedence::After && text_precedence(b, c) != Precedence::After
            ==> text_precedence(a, c) != Precedence::After,
    decreases a.len(),
{
    if a.len() > 0 && b.len() > 0 && c.len() > 0 {
        lemma_text_laws(a.drop_first(), b.drop_first(), c.drop_first());
        if text_precedence(a, b) == Precedence::Same {
            assert(a.drop_first() == b.drop_first());
            assert(a =~= seq![a[0]] + a.drop_first());
            assert(b =~= seq![b[0]] + b.drop_first());
        }
    } else if a.len() > 0 && b.len() > 0 {
        lemma_text_laws(a.drop_first(), b.drop_first(), a.drop_first());
        if text_precedence(a, b) == Precedence::Same {
            assert(a =~= seq![a[0]] + a.drop_first());
            assert(b =~= seq![b[0]] + b.drop_first());
        }
    } else if a.len() > 0 {
        lemma_text_laws(a.drop_first(), a.drop_first(), a.drop_first());
    }
}

proof fn lemma_part_laws(x: PartModel, y: PartModel, z: PartModel)
    ensures
        part_precedence(x, x) == Precedence::Same,
        part_precedence(y, x) == flip(part_precedence(x, y)),
        part_precedence(x, y) == Precedence::Same ==> part_value(x) == part_value(y) && part_text(x)
            == part_text(y),
        part_precedence(x, y) != Precedence::After && part_precedence(y, z) != Precedence::After
            ==> part_precedence(x, z) != Precedence::After,
{
    lemma_text_laws(part_text(x), part_text(y), part_text(z));
}

/// Every version is equal in precedence to itself.
pub proof fn lemma_precedence_reflexive(a: Seq<PartModel>, i: int)
    ensures
        precedence_from(a, a, i) == Precedence::Same,
    decreases max_len(a, a) - i,
{
    if i < max_len(a, a) {
        lemma_part_laws(component_at(a, i), component_at(a, i), component_at(a, i));
        lemma_precedence_reflexive(a, i + 1);
    }
}

/// Swapping the arguments flips the precedence.
pub proof fn lemma_precedence_flip(a: Seq<PartModel>, b: Seq<PartModel>, i: int)
    ensures
        precedence_from(b, a, i) == flip(precedence_from(a, b, i)),
    decreases max_len(a, b) - i,
{
    if i < max_len(a, b) {
        lemma_part_laws(component_at(a, i), component_at(b, i), component_at(a, i));
        lemma_precedence_flip(a, b, i + 1);
    }
}

pub open spec fn max_len3(a: Seq<PartModel>, b: Seq<PartModel>, c: Seq<PartModel>) -> int {
    if max_len(a, b) >= c.len() { max_len(a, b) } else { c.len() as int }
}

/// Precedence is transitive: not after, then not after, gives not after.
pub proof fn lemma_precedence_transitive(a: Seq<PartModel>, b: Seq<PartModel>, c: Seq<PartModel>, i: int)
    requires
        precedence_from(a, b, i) != Precedence::After,
        precedence_from(b, c, i) != Precedence::After,
    ensures
        precedence_from(a, c, i) != Precedence::After,
    decreases max_len3(a, b, c) - i,
{
    if i < max_len3(a, b, c) {
        let x = component_at(a, i);
        let y = component_at(b, i);
        let z = component_at(c, i);
        lemma_part_laws(x, y, z);
        lemma_part_laws(y, z, x);
        lemma_part_laws(x, z, y);
        if part_precedence(x, y) == Precedence::Same && part_precedence(y, z) == Precedence::Same {
            lemma_precedence_transitive(a, b, c, i + 1);
        }
    }
}

proof fn lemma_split_without_sep(s: Seq<char>, sep: char)
    requires
        !s.contains(sep),
    ensures
        split_on(s, sep) == seq![s],
    decreases s.len(),
{
    if s.len() > 0 {
        assert(!s.drop_last().contains(sep)) by {
            if s.drop_last().contains(sep) {
                let k = choose|k: int| 0 <= k < s.drop_last().len() && s.drop_last()[k] == sep;
                assert(s[k] == sep);
            }
        }
        lemma_split_without_sep(s.drop_last(), sep);
        assert(s.last() != sep) by {
            assert(s[s.len() - 1] == s.last());
        }
        assert(s.drop_last().push(s.last()) =~= s);
        assert(seq![s.drop_last()].update(0, s.drop_last().push(s.last())) =~= seq![s]);
    } else {
        assert(s =~= Seq::<char>::empty());
        assert(split_on(s, sep) =~= seq![s]);
    }
}

proof fn lemma_split_keeps_first_piece(p: Seq<char>, t: Seq<char>, sep: char)
    requires
        t.len() > 0,
        t[0] == sep,
    ensures
        split_on(p + t, sep).len() >= 2,
        split_on(p + t, sep)[0] == split_on(p, sep)[0],
    decreases t.len(),
{
    lemma_split_nonempty(p, sep);
    if t.len() == 1 {
        assert((p + t).drop_last() =~= p);
        assert((p + t).last() == sep);
    } else {
        let td = t.drop_last();
        lemma_split_keeps_first_piece(p, td, sep);
        assert((p + t).drop_last() =~= p + td);
        assert((p + t).last() == t.last());
    }
}

/// The first part of a version is the text before its first `.`.
proof fn lemma_first_component(a0: Seq<char>, ra: Seq<char>)
    requires
        !a0.contains('.'),
        ra.len() == 0 || ra[0] == '.',
    ensures
        version_components(a0 + ra).len() >= 1,
        version_components(a0 + ra)[0] == part_of(a0),
{
    lemma_split_without_sep(a0, '.');
    if ra.len() == 0 {
        assert(a0 + ra =~= a0);
    } else {
        lemma_split_keeps_first_piece(a0, ra, '.');
    }
}

/// Versions are compared by their first dot-separated parts first: when the texts
/// before the first `.` of two versions differ in precedence, that decides.
pub proof fn lemma_first_part_decides(a0: Seq<char>, ra: Seq<char>, b0: Seq<char>, rb: Seq<char>)
    requires
        !a0.contains('.'),
        !b0.contains('.'),
        ra.len() == 0 || ra[0] == '.',
        rb.len() == 0 || rb[0] == '.',
        part_precedence(part_of(a0), part_of(b0)) != Precedence::Same,
    ensures
        version_precedence(a0 + ra, b0 + rb) == part_precedence(part_of(a0), part_of(b0)),
{
    lemma_first_component(a0, ra);
    lemma_first_component(b0, rb);
}

/// A version whose leading number is smaller comes first, whatever follows: when the
/// texts before the first `.` of `a` and `b` are the numbers `x < y`, `a` comes before
/// `b` (so `4.27.2` before `5.0.0`).
pub proof fn lemma_smaller_major_first(a0: Seq<char>, ra: Seq<char>, b0: Seq<char>, rb: Seq<char>, x: u64, y: u64)
    requires
        !a0.contains('.'),
        !b0.contains('.'),
        ra.len() == 0 || ra[0] == '.',
        rb.len() == 0 || rb[0] == '.',
        parse_u64_spec(a0) == Some(x),
        parse_u64_spec(b0) == Some(y),
        x < y,
    ensures
        version_precedence(a0 + ra, b0 + rb) == Precedence::Before,
        version_precedence(b0 + rb, a0 + ra) == Precedence::After,
{
    lemma_first_part_decides(a0, ra, b0, rb);
    lemma_first_part_decides(b0, rb, a0, ra);
}

proof fn lemma_split_concat(x: Seq<char>, y: Seq<char>, sep: char)
    ensures
        split_on(x + seq![sep] + y, sep) == split_on(x, sep) + split_on(y, sep),
    decreases y.len(),
{
    lemma_split_nonempty(x, sep);
    if y.len() == 0 {
        assert((x + seq![sep] + y).drop_last() =~= x);
        assert((x + seq![sep] + y).last() == sep);
        assert(split_on(y, sep) =~= seq![Seq::<char>::empty()]);
        assert(split_on(x, sep).push(Seq::<char>::empty()) =~= split_on(x, sep) + split_on(y, sep));
    } else {
        let yd = y.drop_last();
        lemma_split_concat(x, yd, sep);
        lemma_split_nonempty(yd, sep);
        assert((x + seq![sep] + y).drop_last() =~= x + seq![sep] + yd);
        assert((x + seq![sep] + y).last() == y.last());
        let a = split_on(x, sep);
        let b = split_on(yd, sep);
        if y.last() == sep {
            assert((a + b).push(Seq::<char>::empty()) =~= a + b.push(Seq::<char>::empty()));
        } else {
            assert((a + b).update((a + b).len() - 1, (a + b).last().push(y.last())) =~= a + b.update(
                b.len() - 1,
                b.last().push(y.last()),
            ));
        }
    }
}

proof fn lemma_precedence_shift(a: Seq<PartModel>, b: Seq<PartModel>, i: int)
    requires
        a.len() > 0,
        b.len() > 0,
        i >= 0,
    ensures
        precedence_from(a, b, i + 1) == precedence_from(a.drop_first(), b.drop_first(), i),
    decreases max_len(a, b) - i,
{
    assert(component_at(a, i + 1) == component_at(a.drop_first(), i));
    assert(component_at(b, i + 1) == component_at(b.drop_first(), i));
    if i + 1 < max_len(a, b) {
        lemma_precedence_shift(a, b, i + 1);
    }
}

/// Versions are compared part after part, in order: when the parts before the first
/// `.` tie, what follows the first `.` of each decides, compared the same way.
pub proof fn lemma_tie_passes_to_rest(a0: Seq<char>, ra: Seq<char>, b0: Seq<char>, rb: Seq<char>)
    requires
        !a0.contains('.'),
        !b0.contains('.'),
        part_precedence(part_of(a0), part_of(b0)) == Precedence::Same,
    ensures
        version_precedence(a0 + seq!['.'] + ra, b0 + seq!['.'] + rb) == version_precedence(ra, rb),
{
    lemma_split_concat(a0, ra, '.');
    lemma_split_concat(b0, rb, '.');
    lemma_split_without_sep(a0, '.');
    lemma_split_without_sep(b0, '.');
    lemma_split_nonempty(ra, '.');
    lemma_split_nonempty(rb, '.');
    let ca = version_components(a0 + seq!['.'] + ra);
    let cb = version_components(b0 + seq!['.'] + rb);
    assert(ca =~= seq![part_of(a0)] + version_components(ra));
    assert(cb =~= seq![part_of(b0)] + version_components(rb));
    assert(ca.drop_first() =~= version_components(ra));
    assert(cb.drop_first() =~= version_components(rb));
    assert(component_at(ca, 0) == part_of(a0));
    assert(component_at(cb, 0) == part_of(b0));
    lemma_precedence_shift(ca, cb, 0);
}

/// Laws of the version order on strings: reflexive, antisymmetric and transitive,
/// so sorting by it is well defined.
pub proof fn lemma_version_order_laws(a: Seq<char>, b: Seq<char>, c: Seq<char>)
    ensures
        version_precedence(a, a) == Precedence::Same,
        version_precedence(b, a) == flip(version_precedence(a, b)),
        version_precedence(a, b) != Precedence::After && version_precedence(b, c)
            != Precedence::After ==> version_precedence(a, c) != Precedence::After,
{
    lemma_precedence_reflexive(version_components(a), 0);
    lemma_precedence_flip(version_components(a), version_components(b), 0);
    if version_precedence(a, b) != Precedence::After && version_precedence(b, c) != Precedence::After {
        lemma_precedence_transitive(version_components(a), version_components(b), version_components(c), 0);
    }
}

} // verus!

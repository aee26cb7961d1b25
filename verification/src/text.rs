//! Byte-oriented text utilities: whitespace trimming, splitting, line
//! separation, ASCII lowercasing, integer parsing and formatting, and
//! lexicographic comparison. All other modules state their contracts over
//! the spec functions defined here.

use vstd::prelude::*;

verus! {

/// ASCII whitespace, as the usual trimming understands it.
pub open spec fn is_ws(b: u8) -> bool {
    b == 32 || (9 <= b && b <= 13)
}

pub open spec fn trim_start(s: Seq<u8>) -> Seq<u8>
    decreases s.len(),
{
    if s.len() > 0 && is_ws(s[0]) {
        trim_start(s.drop_first())
    } else {
        s
    }
}

pub open spec fn trim_end(s: Seq<u8>) -> Seq<u8>
    decreases s.len(),
{
    if s.len() > 0 && is_ws(s.last()) {
        trim_end(s.drop_last())
    } else {
        s
    }
}

pub open spec fn trim(s: Seq<u8>) -> Seq<u8> {
    trim_end(trim_start(s))
}

proof fn lemma_trim_start_skip(s: Seq<u8>, i: int)
    requires
        0 <= i <= s.len(),
        forall|k: int| 0 <= k < i ==> is_ws(s[k]),
        i == s.len() || !is_ws(s[i]),
    ensures
        trim_start(s) == s.skip(i),
    decreases i,
{
    if i == 0 {
        assert(s.skip(0) =~= s);
    } else {
        lemma_trim_start_skip(s.drop_first(), i - 1);
        assert(s.drop_first().skip(i - 1) =~= s.skip(i));
    }
}

proof fn lemma_trim_end_take(s: Seq<u8>, j: int)
    requires
        0 <= j <= s.len(),
        forall|k: int| j <= k < s.len() ==> is_ws(s[k]),
        j == 0 || !is_ws(s[j - 1]),
    ensures
        trim_end(s) == s.take(j),
    decreases s.len() - j,
{
    if j == s.len() {
        assert(s.take(j) =~= s);
    } else {
        lemma_trim_end_take(s.drop_last(), j);
        assert(s.drop_last().take(j) =~= s.take(j));
    }
}

/// Copy of `s` with leading and trailing ASCII whitespace removed.
pub fn trim_vec(s: &Vec<u8>) -> (r: Vec<u8>)
    ensures
        r@ == trim(s@),
{
    let n = s.len();
    let mut i: usize = 0;
    while i < n && is_ws_exec(s[i])
        invariant
            0 <= i <= n == s@.len(),
            forall|k: int| 0 <= k < i ==> is_ws(s@[k]),
        decreases n - i,
    {
        i += 1;
    }
    let mut j: usize = n;
    while j > i && is_ws_exec(s[j - 1])
        invariant
            i <= j <= n == s@.len(),
            forall|k: int| 0 <= k < i ==> is_ws(s@[k]),
            i == n || !is_ws(s@[i as int]),
            forall|k: int| j <= k < n ==> is_ws(s@[k]),
        decreases j,
    {
        j -= 1;
    }
    proof {
        lemma_trim_start_skip(s@, i as int);
        if j > i {
            lemma_trim_end_take(s@.skip(i as int), j - i);
        } else {
            lemma_trim_end_take(s@.skip(i as int), 0);
        }
    }
    let mut out: Vec<u8> = Vec::new();
    let mut k: usize = i;
    while k < j
        invariant
            i <= k <= j <= n == s@.len(),
            out@ =~= s@.subrange(i as int, k as int),
        decreases j - k,
    {
        out.push(s[k]);
        k += 1;
    }
    proof {
        assert(out@ =~= s@.skip(i as int).take(j - i));
    }
    out
}

/// Copy of `s` with trailing ASCII whitespace removed.
pub fn trim_end_vec(s: &Vec<u8>) -> (r: Vec<u8>)
    ensures
        r@ == trim_end(s@),
{
    let n = s.len();
    let mut j: usize = n;
    while j > 0 && is_ws_exec(s[j - 1])
        invariant
            0 <= j <= n == s@.len(),
            forall|k: int| j <= k < n ==> is_ws(s@[k]),
        decreases j,
    {
        j -= 1;
    }
    proof {
        lemma_trim_end_take(s@, j as int);
    }
    let mut out: Vec<u8> = Vec::new();
    let mut k: usize = 0;
    while k < j
        invariant
            0 <= k <= j <= n == s@.len(),
            out@ =~= s@.subrange(0, k as int),
        decreases j - k,
    {
        out.push(s[k]);
        k += 1;
    }
    out
}

pub fn is_ws_exec(b: u8) -> (r: bool)
    ensures
        r == is_ws(b),
{
    b == 32 || (9 <= b && b <= 13)
}

/// Whether byte `b` occurs in `s`.
pub fn contains_byte(s: &Vec<u8>, b: u8) -> (r: bool)
    ensures
        r == s@.contains(b),
{
    let n = s.len();
    let mut i: usize = 0;
    while i < n
        invariant
            0 <= i <= n == s@.len(),
            forall|k: int| 0 <= k < i ==> s@[k] != b,
        decreases n - i,
    {
        if s[i] == b {
            return true;
        }
        i += 1;
    }
    false
}

/// Whether `p` is a prefix of `s`.
pub fn starts_with(s: &Vec<u8>, p: &Vec<u8>) -> (r: bool)
    ensures
        r == p@.is_prefix_of(s@),
{
    let np = p.len();
    if s.len() < np {
        return false;
    }
    let mut i: usize = 0;
    while i < np
        invariant
            0 <= i <= np == p@.len(),
            np <= s@.len(),
            forall|k: int| 0 <= k < i ==> s@[k] == p@[k],
        decreases np - i,
    {
        if s[i] != p[i] {
            assert(!p@.is_prefix_of(s@)) by {
                assert(s@.subrange(0, np as int)[i as int] != p@[i as int]);
            }
            return false;
        }
        i += 1;
    }
    assert(p@ =~= s@.subrange(0, np as int));
    true
}

/// The pieces of `s` between occurrences of `sep`; always at least one piece.
pub open spec fn split_byte(s: Seq<u8>, sep: u8) -> Seq<Seq<u8>>
    decreases s.len(),
{
    if s.len() == 0 {
        seq![Seq::<u8>::empty()]
    } else if s[0] == sep {
        seq![Seq::<u8>::empty()] + split_byte(s.drop_first(), sep)
    } else {
        let rest = split_byte(s.drop_first(), sep);
        seq![seq![s[0]] + rest[0]] + rest.drop_first()
    }
}

pub proof fn lemma_split_nonempty(s: Seq<u8>, sep: u8)
    ensures
        split_byte(s, sep).len() >= 1,
    decreases s.len(),
{
    if s.len() > 0 {
        lemma_split_nonempty(s.drop_first(), sep);
    }
}

pub proof fn lemma_split_push(s: Seq<u8>, sep: u8, b: u8)
    ensures
        b == sep ==> split_byte(s.push(b), sep) == split_byte(s, sep).push(
            Seq::<u8>::empty(),
        ),
        b != sep ==> split_byte(s.push(b), sep) == split_byte(s, sep).update(
            split_byte(s, sep).len() - 1,
            split_byte(s, sep).last().push(b),
        ),
    decreases s.len(),
{
    lemma_split_nonempty(s, sep);
    if s.len() == 0 {
        let t = s.push(b);
        assert(t.len() == 1 && t[0] == b);
        assert(t.drop_first() =~= Seq::<u8>::empty());
        assert(split_byte(t.drop_first(), sep) == seq![Seq::<u8>::empty()]);
        if b == sep {
            assert(split_byte(t, sep) == seq![Seq::<u8>::empty()] + split_byte(
                t.drop_first(),
                sep,
            ));
            assert(split_byte(t, sep) =~= split_byte(s, sep).push(Seq::<u8>::empty()));
        } else {
            assert(seq![t[0]] + split_byte(t.drop_first(), sep)[0] =~= seq![b]);
            assert(split_byte(t, sep) =~= split_byte(s, sep).update(
                0,
                split_byte(s, sep).last().push(b),
            ));
        }
    } else {
        let t = s.push(b);
        assert(t.drop_first() =~= s.drop_first().push(b));
        lemma_split_push(s.drop_first(), sep, b);
        lemma_split_nonempty(s.drop_first(), sep);
        let rest = split_byte(s.drop_first(), sep);
        let restb = split_byte(s.drop_first().push(b), sep);
        if s[0] == sep {
            assert(split_byte(t, sep) == seq![Seq::<u8>::empty()] + restb);
            assert(split_byte(s, sep) == seq![Seq::<u8>::empty()] + rest);
            if b == sep {
                assert(split_byte(t, sep) =~= split_byte(s, sep).push(Seq::<u8>::empty()));
            } else {
                assert(split_byte(t, sep) =~= split_byte(s, sep).update(
                    split_byte(s, sep).len() - 1,
                    split_byte(s, sep).last().push(b),
                ));
            }
        } else {
            if b == sep {
                assert(restb[0] == rest[0]);
                assert(split_byte(t, sep) =~= split_byte(s, sep).push(Seq::<u8>::empty()));
            } else {
                if rest.len() == 1 {
                    assert(restb[0] == rest[0].push(b));
                    assert(split_byte(t, sep) =~= split_byte(s, sep).update(
                        split_byte(s, sep).len() - 1,
                        split_byte(s, sep).last().push(b),
                    ));
                } else {
                    assert(restb[0] == rest[0]);
                    assert(restb.drop_first() =~= rest.drop_first().update(
                        rest.len() - 2,
                        rest.last().push(b),
                    ));
                    assert(split_byte(t, sep) =~= split_byte(s, sep).update(
                        split_byte(s, sep).len() - 1,
                        split_byte(s, sep).last().push(b),
                    ));
                }
            }
        }
    }
}

/// The element-wise view relation between a vector of byte vectors and a
/// sequence of byte sequences.
pub open spec fn views_match(r: Seq<Vec<u8>>, s: Seq<Seq<u8>>) -> bool {
    r.len() == s.len() && (forall|i: int| 0 <= i < r.len() ==> #[trigger] r[i]@ == s[i])
}

/// Split `s` on byte `sep` into pieces.
pub fn split_byte_vec(s: &Vec<u8>, sep: u8) -> (r: Vec<Vec<u8>>)
    ensures
        views_match(r@, split_byte(s@, sep)),
{
    let n = s.len();
    let mut out: Vec<Vec<u8>> = Vec::new();
    let mut cur: Vec<u8> = Vec::new();
    let mut i: usize = 0;
    proof {
        assert(s@.take(0) =~= Seq::<u8>::empty());
    }
    while i < n
        invariant
            0 <= i <= n == s@.len(),
            split_byte(s@.take(i as int), sep).len() == out@.len() + 1,
            views_match(out@, split_byte(s@.take(i as int), sep).drop_last()),
            cur@ == split_byte(s@.take(i as int), sep).last(),
        decreases n - i,
    {
        let ghost pre = split_byte(s@.take(i as int), sep);
        proof {
            lemma_split_push(s@.take(i as int), sep, s@[i as int]);
            assert(s@.take(i + 1) =~= s@.take(i as int).push(s@[i as int]));
        }
        if s[i] == sep {
            out.push(cur);
            cur = Vec::new();
            proof {
                assert(split_byte(s@.take(i + 1), sep).drop_last() =~= pre);
            }
        } else {
            cur.push(s[i]);
            proof {
                assert(split_byte(s@.take(i + 1), sep).drop_last() =~= pre.drop_last());
            }
        }
        i += 1;
    }
    out.push(cur);
    proof {
        assert(s@.take(n as int) =~= s@);
    }
    out
}

/// One line as `str::lines` would hand it out: a trailing carriage return
/// that preceded the line feed is removed.
pub open spec fn strip_cr(l: Seq<u8>) -> Seq<u8> {
    if l.len() > 0 && l.last() == 13 {
        l.drop_last()
    } else {
        l
    }
}

/// The lines of `s`, split at line feeds, with a carriage return before each
/// line feed removed and without a final empty piece.
pub open spec fn lines_of(s: Seq<u8>) -> Seq<Seq<u8>> {
    let parts = split_byte(s, 10);
    let main = parts.take(parts.len() - 1).map_values(|l: Seq<u8>| strip_cr(l));
    if parts.last().len() == 0 {
        main
    } else {
        main.push(parts.last())
    }
}

/// Split `s` into lines.
pub fn lines_vec(s: &Vec<u8>) -> (r: Vec<Vec<u8>>)
    ensures
        views_match(r@, lines_of(s@)),
{
    let parts = split_byte_vec(s, 10);
    proof {
        lemma_split_nonempty(s@, 10);
    }
    let ghost sparts = split_byte(s@, 10);
    let ghost main = sparts.take(sparts.len() - 1).map_values(|l: Seq<u8>| strip_cr(l));
    let m = parts.len() - 1;
    let mut out: Vec<Vec<u8>> = Vec::new();
    let mut i: usize = 0;
    while i < m
        invariant
            0 <= i <= m,
            m + 1 == parts@.len() == sparts.len(),
            views_match(parts@, sparts),
            main == sparts.take(sparts.len() - 1).map_values(|l: Seq<u8>| strip_cr(l)),
            out@.len() == i,
            forall|k: int| 0 <= k < i ==> #[trigger] out@[k]@ == main[k],
        decreases m - i,
    {
        let mut piece = parts[i].clone();
        assert(piece@ == sparts[i as int]);
        if piece.len() > 0 && piece[piece.len() - 1] == 13 {
            piece.pop();
        }
        assert(piece@ == strip_cr(sparts[i as int]));
        out.push(piece);
        i += 1;
    }
    let last = &parts[m];
    if last.len() > 0 {
        let l2 = last.clone();
        out.push(l2);
        assert(out@.drop_last() =~= out@.take(out@.len() - 1));
    }
    out
}

/// Strict lexicographic byte order.
pub open spec fn lex_lt(a: Seq<u8>, b: Seq<u8>) -> bool
    decreases a.len(),
{
    if b.len() == 0 {
        false
    } else if a.len() == 0 {
        true
    } else if a[0] < b[0] {
        true
    } else if a[0] > b[0] {
        false
    } else {
        lex_lt(a.drop_first(), b.drop_first())
    }
}

pub proof fn lemma_lex_connected(a: Seq<u8>, b: Seq<u8>)
    ensures
        !lex_lt(a, b) && !lex_lt(b, a) ==> a == b,
        lex_lt(a, b) ==> !lex_lt(b, a),
    decreases a.len(),
{
    if a.len() > 0 && b.len() > 0 && a[0] == b[0] {
        lemma_lex_connected(a.drop_first(), b.drop_first());
        if !lex_lt(a, b) && !lex_lt(b, a) {
            assert(a =~= seq![a[0]] + a.drop_first());
            assert(b =~= seq![b[0]] + b.drop_first());
        }
    }
}

pub proof fn lemma_lex_transitive(a: Seq<u8>, b: Seq<u8>, c: Seq<u8>)
    requires
        lex_lt(a, b),
        lex_lt(b, c),
    ensures
        lex_lt(a, c),
    decreases a.len(),
{
    if a.len() > 0 && b.len() > 0 && c.len() > 0 && a[0] == b[0] && b[0] == c[0] {
        lemma_lex_transitive(a.drop_first(), b.drop_first(), c.drop_first());
    }
}

/// Three-way comparison outcome.
pub enum Cmp {
    Lt,
    Eq,
    Gt,
}

/// Compare two byte vectors in lexicographic order.
pub fn lex_cmp(a: &Vec<u8>, b: &Vec<u8>) -> (r: Cmp)
    ensures
        r is Lt <==> lex_lt(a@, b@),
        r is Eq <==> a@ == b@,
        r is Gt <==> lex_lt(b@, a@),
{
    let na = a.len();
    let nb = b.len();
    let mut i: usize = 0;
    proof {
        lemma_lex_connected(a@, b@);
        assert(a@.skip(0) =~= a@);
        assert(b@.skip(0) =~= b@);
    }
    while i < na && i < nb
        invariant
            0 <= i <= na == a@.len(),
            i <= nb == b@.len(),
            forall|k: int| 0 <= k < i ==> a@[k] == b@[k],
            lex_lt(a@, b@) <==> lex_lt(a@.skip(i as int), b@.skip(i as int)),
            lex_lt(b@, a@) <==> lex_lt(b@.skip(i as int), a@.skip(i as int)),
            a@ == b@ <==> a@.skip(i as int) == b@.skip(i as int),
            !lex_lt(a@, b@) || !lex_lt(b@, a@),
        decreases na - i,
    {
        let ghost sa = a@.skip(i as int);
        let ghost sb = b@.skip(i as int);
        if a[i] < b[i] {
            assert(lex_lt(sa, sb));
            return Cmp::Lt;
        }
        if a[i] > b[i] {
            assert(lex_lt(sb, sa));
            return Cmp::Gt;
        }
        proof {
            assert(sa.drop_first() =~= a@.skip(i + 1));
            assert(sb.drop_first() =~= b@.skip(i + 1));
            if a@.skip(i + 1) == b@.skip(i + 1) {
                assert(sa =~= seq![sa[0]] + sa.drop_first());
                assert(sb =~= seq![sb[0]] + sb.drop_first());
            }
        }
        i += 1;
    }
    if na == nb {
        proof {
            assert(a@.skip(i as int) =~= b@.skip(i as int));
        }
        Cmp::Eq
    } else if na < nb {
        assert(lex_lt(a@.skip(i as int), b@.skip(i as int)));
        Cmp::Lt
    } else {
        assert(lex_lt(b@.skip(i as int), a@.skip(i as int)));
        Cmp::Gt
    }
}

/// Byte-wise equality of two vectors.
pub fn eq_bytes(s: &Vec<u8>, t: &Vec<u8>) -> (r: bool)
    ensures
        r == (s@ == t@),
{
    match lex_cmp(s, t) {
        Cmp::Eq => true,
        _ => false,
    }
}

/// ASCII lowercase of one byte.
pub open spec fn lower_byte(b: u8) -> u8 {
    if 65 <= b && b <= 90 {
        (b + 32) as u8
    } else {
        b
    }
}

/// ASCII lowercase of a byte string.
pub open spec fn to_lower(s: Seq<u8>) -> Seq<u8> {
    s.map_values(|b: u8| lower_byte(b))
}

/// Copy of `s` with ASCII uppercase letters lowered.
pub fn to_lower_vec(s: &Vec<u8>) -> (r: Vec<u8>)
    ensures
        r@ == to_lower(s@),
{
    let n = s.len();
    let mut out: Vec<u8> = Vec::new();
    let mut i: usize = 0;
    while i < n
        invariant
            0 <= i <= n == s@.len(),
            out@ =~= s@.take(i as int).map_values(|b: u8| lower_byte(b)),
        decreases n - i,
    {
        let b = s[i];
        if 65 <= b && b <= 90 {
            out.push(b + 32);
        } else {
            out.push(b);
        }
        proof {
            assert(s@.take(i + 1).map_values(|b: u8| lower_byte(b)) =~= s@.take(
                i as int,
            ).map_values(|b: u8| lower_byte(b)).push(lower_byte(s@[i as int])));
        }
        i += 1;
    }
    proof {
        assert(s@.take(n as int) =~= s@);
    }
    out
}

/// Splitting at a separator that `a` does not contain peels `a` off whole.
pub proof fn lemma_split_concat(a: Seq<u8>, sep: u8, b: Seq<u8>)
    requires
        !a.contains(sep),
    ensures
        split_byte(a + seq![sep] + b, sep) == seq![a] + split_byte(b, sep),
    decreases a.len(),
{
    if a.len() == 0 {
        let s = a + seq![sep] + b;
        assert(a =~= Seq::<u8>::empty());
        assert(s[0] == sep);
        assert(s.drop_first() =~= b);
        assert(split_byte(s, sep) =~= seq![a] + split_byte(b, sep));
    } else {
        let s = a + seq![sep] + b;
        assert(s[0] == a[0]);
        assert(a[0] != sep) by {
            assert(a.contains(a[0]));
        }
        assert(!a.drop_first().contains(sep)) by {
            if a.drop_first().contains(sep) {
                let i = choose|i: int| 0 <= i < a.drop_first().len() && a.drop_first()[i] == sep;
                assert(a[i + 1] == sep);
                assert(a.contains(sep));
            }
        }
        lemma_split_concat(a.drop_first(), sep, b);
        assert(s.drop_first() =~= a.drop_first() + seq![sep] + b);
        lemma_split_nonempty(s.drop_first(), sep);
        let f = split_byte(s.drop_first(), sep);
        assert(split_byte(s, sep) == seq![seq![s[0]] + f[0]] + f.drop_first());
        assert(f == seq![a.drop_first()] + split_byte(b, sep));
        assert(f[0] == a.drop_first());
        assert(f.drop_first() =~= split_byte(b, sep));
        assert(seq![s[0]] + f[0] =~= a);
        assert(split_byte(s, sep) == seq![a] + split_byte(b, sep));
    }
}

/// Splitting a string free of the separator yields it whole.
pub proof fn lemma_split_whole(a: Seq<u8>, sep: u8)
    requires
        !a.contains(sep),
    ensures
        split_byte(a, sep) == seq![a],
    decreases a.len(),
{
    if a.len() == 0 {
        assert(a =~= Seq::<u8>::empty());
    } else {
        assert(a[0] != sep) by {
            assert(a.contains(a[0]));
        }
        assert(!a.drop_first().contains(sep)) by {
            if a.drop_first().contains(sep) {
                let i = choose|i: int| 0 <= i < a.drop_first().len() && a.drop_first()[i] == sep;
                assert(a[i + 1] == sep);
            }
        }
        lemma_split_whole(a.drop_first(), sep);
        let f = split_byte(a.drop_first(), sep);
        assert(split_byte(a, sep) == seq![seq![a[0]] + f[0]] + f.drop_first());
        assert(f[0] == a.drop_first());
        assert(f.drop_first() =~= Seq::<Seq<u8>>::empty());
        assert(seq![a[0]] + f[0] =~= a);
        assert(split_byte(a, sep) =~= seq![a]);
    }
}

/// No piece of a split contains the separator.
pub proof fn lemma_split_pieces(s: Seq<u8>, sep: u8)
    ensures
        forall|i: int|
            0 <= i < split_byte(s, sep).len() ==> !(#[trigger] split_byte(s, sep)[i]).contains(
                sep,
            ),
    decreases s.len(),
{
    if s.len() == 0 {
        assert forall|i: int| 0 <= i < split_byte(s, sep).len() implies !(#[trigger] split_byte(
            s,
            sep,
        )[i]).contains(sep) by {
            assert(split_byte(s, sep)[i] =~= Seq::<u8>::empty());
        }
    } else {
        lemma_split_pieces(s.drop_first(), sep);
        let rest = split_byte(s.drop_first(), sep);
        lemma_split_nonempty(s.drop_first(), sep);
        if s[0] == sep {
            assert forall|i: int| 0 <= i < split_byte(s, sep).len() implies !(
            #[trigger] split_byte(s, sep)[i]).contains(sep) by {
                if i == 0 {
                    assert(!Seq::<u8>::empty().contains(sep));
                } else {
                    assert(split_byte(s, sep)[i] == rest[i - 1]);
                }
            }
        } else {
            assert forall|i: int| 0 <= i < split_byte(s, sep).len() implies !(
            #[trigger] split_byte(s, sep)[i]).contains(sep) by {
                if i == 0 {
                    let p = seq![s[0]] + rest[0];
                    assert(!rest[0].contains(sep));
                    if p.contains(sep) {
                        let k = choose|k: int| 0 <= k < p.len() && p[k] == sep;
                        if k == 0 {
                            assert(s[0] == sep);
                        } else {
                            assert(rest[0][k - 1] == sep);
                            assert(rest[0].contains(sep));
                        }
                    }
                } else {
                    assert(split_byte(s, sep)[i] == rest.drop_first()[i - 1]);
                    assert(rest.drop_first()[i - 1] == rest[i]);
                }
            }
        }
    }
}

/// The length of the run of whitespace that opens `s`.
pub open spec fn ws_prefix_len(s: Seq<u8>) -> int
    decreases s.len(),
{
    if s.len() > 0 && is_ws(s[0]) {
        1 + ws_prefix_len(s.drop_first())
    } else {
        0
    }
}

pub proof fn lemma_ws_prefix(s: Seq<u8>)
    ensures
        0 <= ws_prefix_len(s) <= s.len(),
        forall|k: int| 0 <= k < ws_prefix_len(s) ==> is_ws(s[k]),
        ws_prefix_len(s) == s.len() || !is_ws(s[ws_prefix_len(s)]),
        trim_start(s) == s.skip(ws_prefix_len(s)),
    decreases s.len(),
{
    if s.len() > 0 && is_ws(s[0]) {
        lemma_ws_prefix(s.drop_first());
        assert(forall|k: int| 1 <= k < s.len() ==> s[k] == s.drop_first()[k - 1]);
        assert(s.drop_first().skip(ws_prefix_len(s.drop_first())) =~= s.skip(ws_prefix_len(s)));
    } else {
        assert(s.skip(0) =~= s);
    }
}

/// The length of the run of whitespace that closes `s`.
pub open spec fn ws_suffix_len(s: Seq<u8>) -> int
    decreases s.len(),
{
    if s.len() > 0 && is_ws(s.last()) {
        1 + ws_suffix_len(s.drop_last())
    } else {
        0
    }
}

pub proof fn lemma_ws_suffix(s: Seq<u8>)
    ensures
        0 <= ws_suffix_len(s) <= s.len(),
        forall|k: int| s.len() - ws_suffix_len(s) <= k < s.len() ==> is_ws(s[k]),
        ws_suffix_len(s) == s.len() || !is_ws(s[s.len() - ws_suffix_len(s) - 1]),
        trim_end(s) == s.take(s.len() - ws_suffix_len(s)),
    decreases s.len(),
{
    if s.len() > 0 && is_ws(s.last()) {
        lemma_ws_suffix(s.drop_last());
        assert(forall|k: int| 0 <= k < s.len() - 1 ==> s[k] == s.drop_last()[k]);
        assert(s.drop_last().take(s.drop_last().len() - ws_suffix_len(s.drop_last())) =~= s.take(
            s.len() - ws_suffix_len(s),
        ));
    } else {
        assert(s.take(s.len() as int) =~= s);
    }
}

/// Trimming twice trims once.
pub proof fn lemma_trim_idempotent(s: Seq<u8>)
    ensures
        trim(trim(s)) == trim(s),
        trim_end(trim_end(s)) == trim_end(s),
        trim_end(trim(s)) == trim(s),
        trim(s).len() > 0 ==> !is_ws(trim(s)[0]) && !is_ws(trim(s).last()),
{
    lemma_ws_prefix(s);
    let i = ws_prefix_len(s);
    let m = s.skip(i);
    lemma_ws_suffix(m);
    let j = m.len() - ws_suffix_len(m);
    assert(trim(s) == m.take(j));
    lemma_ws_suffix(s);
    assert(trim_end(s) == s.take(s.len() - ws_suffix_len(s)));
    let t = trim(s);
    if t.len() > 0 {
        assert(t[0] == m[0]);
        assert(!is_ws(m[0])) by {
            if i < s.len() {
                assert(m[0] == s[i]);
            }
        }
        assert(!is_ws(t.last())) by {
            assert(t.last() == m[j - 1]);
        }
        assert(trim_start(t) == t) by {
            lemma_ws_prefix(t);
            assert(ws_prefix_len(t) == 0);
            assert(t.skip(0) =~= t);
        }
        assert(trim_end(t) == t) by {
            lemma_ws_suffix(t);
            assert(ws_suffix_len(t) == 0);
            assert(t.take(t.len() as int) =~= t);
        }
    } else {
        assert(trim_start(t) == t);
        assert(trim_end(t) == t);
    }
    let te = trim_end(s);
    assert(trim_end(te) == te) by {
        lemma_ws_suffix(te);
        if te.len() > 0 {
            assert(te.last() == s[s.len() - ws_suffix_len(s) - 1]);
            assert(!is_ws(te.last()));
            assert(ws_suffix_len(te) == 0);
        }
        assert(te.take(te.len() as int) =~= te);
    }
}

/// Trimming after trimming the end trims the whole.
pub proof fn lemma_trim_of_trim_end(s: Seq<u8>)
    ensures
        trim(trim_end(s)) == trim(s),
{
    lemma_ws_suffix(s);
    let te = trim_end(s);
    lemma_ws_prefix(s);
    lemma_ws_prefix(te);
    let i = ws_prefix_len(s);
    let j = s.len() - ws_suffix_len(s);
    if i >= j {
        // the whole of s is whitespace around an empty core
        assert(ws_prefix_len(te) == te.len()) by {
            lemma_ws_prefix(te);
            assert(forall|k: int| 0 <= k < te.len() ==> is_ws(te[k])) by {
                assert(forall|k: int| 0 <= k < te.len() ==> te[k] == s[k]);
            }
            if ws_prefix_len(te) < te.len() {
                assert(!is_ws(te[ws_prefix_len(te)]));
            }
        }
        assert(trim_start(te) =~= Seq::<u8>::empty());
        assert(trim(te) =~= Seq::<u8>::empty());
        assert(ws_prefix_len(s) <= s.len());
        let m = s.skip(i);
        lemma_ws_suffix(m);
        assert(forall|k: int| 0 <= k < m.len() ==> is_ws(m[k])) by {
            assert(forall|k: int| 0 <= k < m.len() ==> m[k] == s[k + i]);
        }
        assert(ws_suffix_len(m) == m.len()) by {
            if ws_suffix_len(m) < m.len() {
                assert(!is_ws(m[m.len() - ws_suffix_len(m) - 1]));
            }
        }
        assert(trim(s) =~= Seq::<u8>::empty());
    } else {
        // i < j: the core s[i..j] survives both orders
        assert(!is_ws(s[i]) && !is_ws(s[j - 1]));
        assert(ws_prefix_len(te) == i) by {
            assert(forall|k: int| 0 <= k < i ==> te[k] == s[k]);
            assert(te[i as int] == s[i as int]);
            lemma_ws_prefix_determined(te, i);
        }
        let m1 = te.skip(i);
        lemma_ws_suffix(m1);
        assert(ws_suffix_len(m1) == 0) by {
            assert(m1.last() == s[j - 1]);
        }
        assert(trim(te) == m1.take(m1.len() as int));
        assert(m1.take(m1.len() as int) =~= m1);
        let m = s.skip(i);
        lemma_ws_suffix(m);
        assert(ws_suffix_len(m) == s.len() - j) by {
            assert(forall|k: int| m.len() - (s.len() - j) <= k < m.len() ==> is_ws(m[k])) by {
                assert(forall|k: int| 0 <= k < m.len() ==> m[k] == s[k + i]);
            }
            assert(m[m.len() - (s.len() - j) - 1] == s[j - 1]);
            lemma_ws_suffix_determined(m, s.len() - j);
        }
        assert(trim(s) == m.take(m.len() - (s.len() - j)));
        assert(m1 =~= m.take(m.len() - (s.len() - j)));
    }
}

pub proof fn lemma_ws_prefix_determined(s: Seq<u8>, i: int)
    requires
        0 <= i <= s.len(),
        forall|k: int| 0 <= k < i ==> is_ws(s[k]),
        i == s.len() || !is_ws(s[i]),
    ensures
        ws_prefix_len(s) == i,
    decreases i,
{
    if i == 0 {
    } else {
        lemma_ws_prefix_determined(s.drop_first(), i - 1);
    }
}

pub proof fn lemma_ws_suffix_determined(s: Seq<u8>, i: int)
    requires
        0 <= i <= s.len(),
        forall|k: int| s.len() - i <= k < s.len() ==> is_ws(s[k]),
        i == s.len() || !is_ws(s[s.len() - i - 1]),
    ensures
        ws_suffix_len(s) == i,
    decreases i,
{
    if i == 0 {
    } else {
        lemma_ws_suffix_determined(s.drop_last(), i - 1);
    }
}

/// Lowercasing twice lowercases once.
pub proof fn lemma_lower_idempotent(s: Seq<u8>)
    ensures
        to_lower(to_lower(s)) == to_lower(s),
{
    assert(to_lower(to_lower(s)) =~= to_lower(s));
}

/// Every byte of a squashed string is a space or not whitespace at all.
pub proof fn lemma_squash_bytes(s: Seq<u8>)
    ensures
        forall|i: int|
            0 <= i < squash(s).len() ==> #[trigger] squash(s)[i] == 32 || !is_ws(squash(s)[i]),
    decreases s.len(),
{
    if s.len() > 0 {
        lemma_squash_bytes(s.drop_first());
        let q = squash(s.drop_first());
        if is_ws(s[0]) && s.len() > 1 && is_ws(s[1]) {
        } else if is_ws(s[0]) {
            assert(forall|i: int| 1 <= i < squash(s).len() ==> squash(s)[i] == q[i - 1]);
        } else {
            assert(forall|i: int| 1 <= i < squash(s).len() ==> squash(s)[i] == q[i - 1]);
            assert(squash(s)[0] == s[0]);
        }
    }
}

/// A cleaned message holds no line break and does not end in whitespace.
pub proof fn lemma_cleaned_bytes(s: Seq<u8>)
    ensures
        forall|i: int|
            0 <= i < cleaned(s).len() ==> #[trigger] cleaned(s)[i] == 32 || !is_ws(cleaned(s)[i]),
        cleaned(s).len() > 0 ==> !is_ws(cleaned(s).last()),
{
    lemma_squash_bytes(s);
    let q = squash(s);
    lemma_ws_prefix(q);
    let m = q.skip(ws_prefix_len(q));
    lemma_ws_suffix(m);
    assert(cleaned(s) == m.take(m.len() - ws_suffix_len(m)));
    assert(forall|i: int| 0 <= i < m.len() ==> m[i] == q[i + ws_prefix_len(q)]);
    if cleaned(s).len() > 0 {
        assert(cleaned(s).last() == m[m.len() - ws_suffix_len(m) - 1]);
    }
}

pub open spec fn is_digit(b: u8) -> bool {
    48 <= b && b <= 57
}

/// Value of a string of decimal digits, most significant first.
pub open spec fn digits_val(s: Seq<u8>) -> int
    decreases s.len(),
{
    if s.len() == 0 {
        0
    } else {
        digits_val(s.drop_last()) * 10 + (s.last() - 48)
    }
}

pub open spec fn all_digits(s: Seq<u8>) -> bool {
    forall|i: int| 0 <= i < s.len() ==> is_digit(#[trigger] s[i])
}

/// What `str::parse::<i32>` accepts and returns: an optional sign, then one
/// or more decimal digits, with the value in range.
pub open spec fn i32_parse(s: Seq<u8>) -> Option<i32> {
    let d = if s.len() > 0 && (s[0] == 43 || s[0] == 45) {
        s.drop_first()
    } else {
        s
    };
    let neg = s.len() > 0 && s[0] == 45;
    if d.len() == 0 || !all_digits(d) {
        None
    } else {
        let v = if neg {
            -digits_val(d)
        } else {
            digits_val(d)
        };
        if i32::MIN <= v <= i32::MAX {
            Some(v as i32)
        } else {
            None
        }
    }
}

proof fn lemma_digits_val_nonneg(s: Seq<u8>)
    requires
        all_digits(s),
    ensures
        digits_val(s) >= 0,
    decreases s.len(),
{
    if s.len() > 0 {
        assert(all_digits(s.drop_last()));
        lemma_digits_val_nonneg(s.drop_last());
    }
}

proof fn lemma_digits_val_grows(s: Seq<u8>, i: int)
    requires
        all_digits(s),
        0 <= i <= s.len(),
    ensures
        digits_val(s.take(i)) <= digits_val(s),
    decreases s.len() - i,
{
    if i == s.len() {
        assert(s.take(i) =~= s);
    } else {
        lemma_digits_val_grows(s, i + 1);
        let t = s.take(i + 1);
        assert(all_digits(t.drop_last()));
        lemma_digits_val_nonneg(t.drop_last());
        assert(t.drop_last() =~= s.take(i));
        assert(digits_val(s.take(i)) <= digits_val(s.take(i + 1)));
    }
}

/// Parse a signed decimal integer exactly as `str::parse::<i32>` would.
pub fn parse_i32(s: &Vec<u8>) -> (r: Option<i32>)
    ensures
        r == i32_parse(s@),
{
    let n = s.len();
    let mut start: usize = 0;
    let mut neg = false;
    if n > 0 && (s[0] == 43 || s[0] == 45) {
        start = 1;
        neg = s[0] == 45;
    }
    let ghost d = s@.skip(start as int);
    if start == 0 {
        proof {
            assert(d =~= s@);
        }
    } else {
        proof {
            assert(d =~= s@.drop_first());
        }
    }
    if n == start {
        return None;
    }
    let mut mag: u64 = 0;
    let mut i: usize = start;
    while i < n
        invariant
            start <= i <= n == s@.len(),
            d == s@.skip(start as int),
            d == (if s@.len() > 0 && (s@[0] == 43 || s@[0] == 45) {
                s@.drop_first()
            } else {
                s@
            }),
            neg == (s@.len() > 0 && s@[0] == 45),
            d.len() == n - start,
            d.len() > 0,
            all_digits(d.take(i - start)),
            mag == digits_val(d.take(i - start)),
            mag <= 0x8000_0000u64,
        decreases n - i,
    {
        let b = s[i];
        if b < 48 || b > 57 {
            assert(!is_digit(d[i - start]));
            assert(!all_digits(d));
            return None;
        }
        proof {
            let t = d.take(i - start + 1);
            assert(t.drop_last() =~= d.take(i - start));
            assert(t.last() == b);
        }
        let nm: u64 = mag * 10 + ((b - 48) as u64);
        if nm > 0x8000_0000u64 {
            // any further digits keep the magnitude out of range
            proof {
                if all_digits(d) {
                    lemma_digits_val_grows(d, i - start + 1);
                }
            }
            return None;
        }
        mag = nm;
        i += 1;
    }
    proof {
        assert(d.take(n - start) =~= d);
    }
    if neg {
        if mag > 0x8000_0000u64 {
            return None;
        }
        let v: i64 = -(mag as i64);
        Some(v as i32)
    } else {
        if mag > 0x7fff_ffffu64 {
            return None;
        }
        Some(mag as i32)
    }
}

/// Each maximal run of whitespace replaced by a single space.
pub open spec fn squash(s: Seq<u8>) -> Seq<u8>
    decreases s.len(),
{
    if s.len() == 0 {
        Seq::<u8>::empty()
    } else if is_ws(s[0]) && s.len() > 1 && is_ws(s[1]) {
        squash(s.drop_first())
    } else if is_ws(s[0]) {
        seq![32u8] + squash(s.drop_first())
    } else {
        seq![s[0]] + squash(s.drop_first())
    }
}

/// A message reduced to one line: every run of whitespace (including line
/// breaks) becomes a single space, and the ends are trimmed.
pub open spec fn cleaned(s: Seq<u8>) -> Seq<u8> {
    trim(squash(s))
}

/// Collapse whitespace runs to single spaces and trim the ends.
pub fn cleaned_vec(s: &Vec<u8>) -> (r: Vec<u8>)
    ensures
        r@ == cleaned(s@),
{
    let n = s.len();
    let mut out: Vec<u8> = Vec::new();
    let mut i: usize = 0;
    proof {
        assert(s@.skip(0) =~= s@);
    }
    while i < n
        invariant
            0 <= i <= n == s@.len(),
            squash(s@) == out@ + squash(s@.skip(i as int)),
        decreases n - i,
    {
        let ghost rest = s@.skip(i as int);
        proof {
            assert(rest.drop_first() =~= s@.skip(i + 1));
        }
        let b = s[i];
        if is_ws_exec(b) {
            if i + 1 < n && is_ws_exec(s[i + 1]) {
                // drop this byte: the run's last whitespace makes the space
            } else {
                out.push(32);
            }
        } else {
            out.push(b);
        }
        i += 1;
    }
    proof {
        assert(s@.skip(n as int) =~= Seq::<u8>::empty());
        assert(out@ + squash(s@.skip(n as int)) =~= out@);
    }
    trim_vec(&out)
}

/// Decimal digits of a nonnegative integer, most significant first.
pub open spec fn dec_nat(n: int) -> Seq<u8>
    decreases n,
{
    if n < 10 {
        seq![(48 + if n >= 0 { n } else { 0 }) as u8]
    } else {
        dec_nat(n / 10).push((48 + n % 10) as u8)
    }
}

/// Decimal rendering of a signed integer.
pub open spec fn dec_int(n: int) -> Seq<u8> {
    if n < 0 {
        seq![45u8] + dec_nat(-n)
    } else {
        dec_nat(n)
    }
}

fn push_dec_u32(n: u32, out: &mut Vec<u8>)
    ensures
        final(out)@ == old(out)@ + dec_nat(n as int),
    decreases n,
{
    if n < 10 {
        out.push(48 + (n as u8));
        proof {
            assert(out@ =~= old(out)@ + dec_nat(n as int));
        }
    } else {
        push_dec_u32(n / 10, out);
        out.push(48 + ((n % 10) as u8));
        proof {
            assert(out@ =~= old(out)@ + dec_nat(n as int));
        }
    }
}

/// Render a signed integer in decimal.
pub fn format_i32(n: i32) -> (r: Vec<u8>)
    ensures
        r@ == dec_int(n as int),
{
    let mut out: Vec<u8> = Vec::new();
    if n < 0 {
        out.push(45);
        let m: i64 = -(n as i64);
        push_dec_u32(m as u32, &mut out);
        proof {
            assert(out@ =~= seq![45u8] + dec_nat(m as int));
        }
    } else {
        push_dec_u32(n as u32, &mut out);
    }
    out
}

} // verus!

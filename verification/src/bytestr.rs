//! Byte-string utilities: bytewise lexicographic order, equality,
//! concatenation, splitting on a separator, and joining.
use vstd::prelude::*;

verus! {

/// Bytewise lexicographic "less or equal" on byte strings.
pub open spec fn lex_leq(a: Seq<u8>, b: Seq<u8>) -> bool
    decreases a.len(),
{
    if a.len() == 0 {
        true
    } else if b.len() == 0 {
        false
    } else if a[0] < b[0] {
        true
    } else if a[0] > b[0] {
        false
    } else {
        lex_leq(a.drop_first(), b.drop_first())
    }
}

/// Any two byte strings are comparable under `lex_leq`.
pub proof fn lemma_lex_total(a: Seq<u8>, b: Seq<u8>)
    ensures
        lex_leq(a, b) || lex_leq(b, a),
    decreases a.len(),
{
    if a.len() != 0 && b.len() != 0 && a[0] == b[0] {
        lemma_lex_total(a.drop_first(), b.drop_first());
    }
}

/// `lex_leq` holds both ways only for equal byte strings.
pub proof fn lemma_lex_antisym(a: Seq<u8>, b: Seq<u8>)
    requires
        lex_leq(a, b),
        lex_leq(b, a),
    ensures
        a == b,
    decreases a.len(),
{
    if a.len() == 0 {
        assert(b.len() == 0);
        assert(a =~= b);
    } else {
        assert(b.len() != 0);
        assert(a[0] == b[0]);
        lemma_lex_antisym(a.drop_first(), b.drop_first());
        assert forall|i: int| 0 <= i < a.len() implies a[i] == b[i] by {
            if i > 0 {
                assert(a[i] == a.drop_first()[i - 1]);
                assert(b[i] == b.drop_first()[i - 1]);
            }
        }
        assert(a =~= b);
    }
}

/// `lex_leq` is transitive.
pub proof fn lemma_lex_trans(a: Seq<u8>, b: Seq<u8>, c: Seq<u8>)
    requires
        lex_leq(a, b),
        lex_leq(b, c),
    ensures
        lex_leq(a, c),
    decreases a.len(),
{
    if a.len() != 0 {
        assert(b.len() != 0);
        assert(c.len() != 0);
        if a[0] == b[0] && b[0] == c[0] {
            lemma_lex_trans(a.drop_first(), b.drop_first(), c.drop_first());
        }
    }
}

/// Dropping an equal prefix from both sides does not change `lex_leq`.
pub proof fn lemma_lex_skip(a: Seq<u8>, b: Seq<u8>, i: int)
    requires
        0 <= i <= a.len(),
        i <= b.len(),
        forall|j: int| 0 <= j < i ==> a[j] == b[j],
    ensures
        lex_leq(a, b) == lex_leq(a.skip(i), b.skip(i)),
    decreases i,
{
    if i > 0 {
        assert(a[0] == b[0]);
        assert(a.drop_first().skip(i - 1) =~= a.skip(i));
        assert(b.drop_first().skip(i - 1) =~= b.skip(i));
        assert(forall|j: int| 0 <= j < i - 1 ==> a.drop_first()[j] == b.drop_first()[j]);
        lemma_lex_skip(a.drop_first(), b.drop_first(), i - 1);
    } else {
        assert(a.skip(0) =~= a);
        assert(b.skip(0) =~= b);
    }
}

/// Bytewise lexicographic comparison of two byte vectors.
pub fn bytes_leq(a: &Vec<u8>, b: &Vec<u8>) -> (r: bool)
    ensures
        r == lex_leq(a@, b@),
{
    let mut i: usize = 0;
    loop
        invariant
            i <= a.len(),
            i <= b.len(),
            forall|j: int| 0 <= j < i ==> a@[j] == b@[j],
        decreases a.len() - i,
    {
        proof {
            lemma_lex_skip(a@, b@, i as int);
        }
        if i == a.len() {
            return true;
        }
        if i == b.len() {
            return false;
        }
        let x = a[i];
        let y = b[i];
        proof {
            assert(a@.skip(i as int)[0] == a@[i as int]);
            assert(b@.skip(i as int)[0] == b@[i as int]);
        }
        if x < y {
            return true;
        }
        if x > y {
            return false;
        }
        i = i + 1;
    }
}

/// Bytewise equality of two byte vectors.
pub fn bytes_eq(a: &Vec<u8>, b: &Vec<u8>) -> (r: bool)
    ensures
        r == (a@ == b@),
{
    if a.len() != b.len() {
        proof {
            assert(a@ != b@) by {
                if a@ == b@ {
                    assert(a@.len() == b@.len());
                }
            }
        }
        return false;
    }
    let mut i: usize = 0;
    while i < a.len()
        invariant
            i <= a.len(),
            a.len() == b.len(),
            forall|j: int| 0 <= j < i ==> a@[j] == b@[j],
        decreases a.len() - i,
    {
        if a[i] != b[i] {
            proof {
                assert(a@ != b@) by {
                    if a@ == b@ {
                        assert(a@[i as int] == b@[i as int]);
                    }
                }
            }
            return false;
        }
        i = i + 1;
    }
    proof {
        assert(a@ =~= b@);
    }
    true
}

/// Appends the bytes of `s` to `out`.
pub fn append_bytes(out: &mut Vec<u8>, s: &Vec<u8>)
    ensures
        final(out)@ == old(out)@ + s@,
{
    let mut i: usize = 0;
    proof {
        assert(out@ =~= old(out)@ + s@.take(0));
    }
    while i < s.len()
        invariant
            i <= s.len(),
            out@ == old(out)@ + s@.take(i as int),
        decreases s.len() - i,
    {
        out.push(s[i]);
        proof {
            assert(old(out)@ + s@.take(i + 1) =~= (old(out)@ + s@.take(i as int)).push(
                s@[i as int],
            ));
        }
        i = i + 1;
    }
    proof {
        assert(s@.take(s@.len() as int) =~= s@);
    }
}

/// Appends the bytes of the slice `s` to `out`; used with literal arrays.
pub fn append_lit(out: &mut Vec<u8>, s: &[u8])
    ensures
        final(out)@ == old(out)@ + s@,
{
    let mut i: usize = 0;
    proof {
        assert(out@ =~= old(out)@ + s@.take(0));
    }
    while i < s.len()
        invariant
            i <= s.len(),
            out@ == old(out)@ + s@.take(i as int),
        decreases s.len() - i,
    {
        let c = *vstd::slice::slice_index_get(s, i);
        out.push(c);
        proof {
            assert(old(out)@ + s@.take(i + 1) =~= (old(out)@ + s@.take(i as int)).push(
                s@[i as int],
            ));
        }
        i = i + 1;
    }
    proof {
        assert(s@.take(s@.len() as int) =~= s@);
    }
}

/// A sequence of `n` copies of the byte `b`.
pub open spec fn rep_byte(b: u8, n: nat) -> Seq<u8> {
    Seq::new(n, |i: int| b)
}

/// Appends `n` copies of the byte `b` to `out`.
pub fn append_rep(out: &mut Vec<u8>, b: u8, n: usize)
    ensures
        final(out)@ == old(out)@ + rep_byte(b, n as nat),
{
    let mut i: usize = 0;
    proof {
        assert(out@ =~= old(out)@ + rep_byte(b, 0));
    }
    while i < n
        invariant
            i <= n,
            out@ == old(out)@ + rep_byte(b, i as nat),
        decreases n - i,
    {
        out.push(b);
        proof {
            assert(old(out)@ + rep_byte(b, (i + 1) as nat) =~= (old(out)@ + rep_byte(
                b,
                i as nat,
            )).push(b));
        }
        i = i + 1;
    }
}

/// Clones a byte vector.
pub fn clone_bytes(a: &Vec<u8>) -> (r: Vec<u8>)
    ensures
        r@ == a@,
{
    let mut r: Vec<u8> = Vec::new();
    append_bytes(&mut r, a);
    proof {
        assert(r@ =~= a@);
    }
    r
}


/// View of a sequence of byte vectors as a sequence of byte strings.
pub open spec fn dv(p: Seq<Vec<u8>>) -> Seq<Seq<u8>> {
    Seq::new(p.len(), |i: int| p[i]@)
}

/// View of a sequence of component-vector paths as mathematical paths.
pub open spec fn dvv(p: Seq<Vec<Vec<u8>>>) -> Seq<Seq<Seq<u8>>> {
    Seq::new(p.len(), |i: int| dv(p[i]@))
}

/// Index of the first occurrence of `sep` in `s`, or -1 when absent.
pub open spec fn first_sep(s: Seq<u8>, sep: u8) -> int
    decreases s.len(),
{
    if s.len() == 0 {
        -1
    } else if s[0] == sep {
        0
    } else {
        let r = first_sep(s.drop_first(), sep);
        if r < 0 {
            -1
        } else {
            r + 1
        }
    }
}

/// `first_sep` returns -1 exactly when `sep` is absent, and otherwise the
/// smallest index holding `sep`.
pub proof fn lemma_first_sep(s: Seq<u8>, sep: u8)
    ensures
        -1 <= first_sep(s, sep) < s.len(),
        first_sep(s, sep) == -1 ==> forall|j: int| 0 <= j < s.len() ==> s[j] != sep,
        first_sep(s, sep) >= 0 ==> s[first_sep(s, sep)] == sep,
        first_sep(s, sep) >= 0 ==> forall|j: int| 0 <= j < first_sep(s, sep) ==> s[j] != sep,
    decreases s.len(),
{
    if s.len() != 0 && s[0] != sep {
        lemma_first_sep(s.drop_first(), sep);
        let r = first_sep(s.drop_first(), sep);
        if r < 0 {
            assert forall|j: int| 0 <= j < s.len() implies s[j] != sep by {
                if j > 0 {
                    assert(s[j] == s.drop_first()[j - 1]);
                }
            }
        } else {
            assert(s[r + 1] == s.drop_first()[r]);
            assert forall|j: int| 0 <= j < r + 1 implies s[j] != sep by {
                if j > 0 {
                    assert(s[j] == s.drop_first()[j - 1]);
                }
            }
        }
    }
}

/// Splits `s` at every occurrence of `sep`; n separators yield n + 1 parts.
pub open spec fn split_sep(s: Seq<u8>, sep: u8) -> Seq<Seq<u8>>
    decreases s.len(),
{
    let i = first_sep(s, sep);
    if i < 0 || i >= s.len() {
        seq![s]
    } else {
        seq![s.take(i)] + split_sep(s.skip(i + 1), sep)
    }
}

/// Copies the byte range [a, b) of `s`.
pub fn sub_bytes(s: &Vec<u8>, a: usize, b: usize) -> (r: Vec<u8>)
    requires
        a <= b <= s@.len(),
    ensures
        r@ == s@.subrange(a as int, b as int),
{
    let mut r: Vec<u8> = Vec::new();
    let mut j: usize = a;
    while j < b
        invariant
            a <= j <= b <= s@.len(),
            r@ == s@.subrange(a as int, j as int),
        decreases b - j,
    {
        r.push(s[j]);
        proof {
            assert(s@.subrange(a as int, j + 1) =~= s@.subrange(a as int, j as int).push(
                s@[j as int],
            ));
        }
        j = j + 1;
    }
    r
}

/// Appends to `out` the parts of `s` from index `from` on, split at `sep`.
fn split_from(s: &Vec<u8>, from: usize, sep: u8, out: &mut Vec<Vec<u8>>)
    requires
        from <= s@.len(),
    ensures
        dv(final(out)@) == dv(old(out)@) + split_sep(s@.skip(from as int), sep),
    decreases s@.len() - from,
{
    let ghost tail = s@.skip(from as int);
    let mut k: usize = from;
    while k < s.len() && s[k] != sep
        invariant
            from <= k <= s@.len(),
            forall|j: int| from <= j < k ==> s@[j] != sep,
        decreases s@.len() - k,
    {
        k = k + 1;
    }
    proof {
        lemma_first_sep(tail, sep);
        assert(forall|j: int| 0 <= j < k - from ==> tail[j] == s@[from + j]);
    }
    if k == s.len() {
        proof {
            assert(forall|j: int| 0 <= j < tail.len() ==> tail[j] != sep);
            assert(first_sep(tail, sep) == -1) by {
                if first_sep(tail, sep) >= 0 {
                    assert(tail[first_sep(tail, sep)] == sep);
                }
            }
            assert(split_sep(tail, sep) == seq![tail]);
        }
        let comp = sub_bytes(s, from, k);
        proof {
            assert(comp@ =~= tail);
        }
        out.push(comp);
        proof {
            assert(dv(out@) =~= dv(old(out)@) + split_sep(tail, sep));
        }
    } else {
        proof {
            let i = first_sep(tail, sep);
            assert(tail[k - from] == s@[k as int]);
            assert(i >= 0) by {
                if i == -1 {
                    assert(tail[k - from] != sep);
                }
            }
            assert(i == k - from) by {
                if i < k - from {
                    assert(tail[i] == s@[from + i]);
                } else if i > k - from {
                    assert(tail[k - from] != sep);
                }
            }
            assert(split_sep(tail, sep) == seq![tail.take(i)] + split_sep(
                tail.skip(i + 1),
                sep,
            ));
            assert(tail.take(i) =~= s@.subrange(from as int, k as int));
            assert(tail.skip(i + 1) =~= s@.skip(k + 1));
        }
        let comp = sub_bytes(s, from, k);
        out.push(comp);
        proof {
            assert(dv(out@) =~= dv(old(out)@).push(s@.subrange(from as int, k as int)));
        }
        split_from(s, k + 1, sep, out);
        proof {
            assert(dv(old(out)@).push(s@.subrange(from as int, k as int)) + split_sep(
                s@.skip(k + 1),
                sep,
            ) =~= dv(old(out)@) + split_sep(tail, sep));
        }
    }
}

/// Splits `s` at every occurrence of `sep`.
pub fn split_bytes(s: &Vec<u8>, sep: u8) -> (r: Vec<Vec<u8>>)
    ensures
        dv(r@) == split_sep(s@, sep),
{
    let mut r: Vec<Vec<u8>> = Vec::new();
    split_from(s, 0, sep, &mut r);
    proof {
        assert(s@.skip(0) =~= s@);
        assert(dv(Seq::<Vec<u8>>::empty()) =~= Seq::<Seq<u8>>::empty());
        assert(dv(r@) =~= split_sep(s@, sep));
    }
    r
}

/// Joins the parts with a single `sep` between adjacent parts.
pub open spec fn join_sep(cs: Seq<Seq<u8>>, sep: u8) -> Seq<u8>
    decreases cs.len(),
{
    if cs.len() == 0 {
        Seq::empty()
    } else if cs.len() == 1 {
        cs[0]
    } else {
        cs[0] + seq![sep] + join_sep(cs.drop_first(), sep)
    }
}

/// Joining after appending one part extends the joined text at its end.
pub proof fn lemma_join_push(cs: Seq<Seq<u8>>, c: Seq<u8>, sep: u8)
    ensures
        cs.len() == 0 ==> join_sep(cs.push(c), sep) == c,
        cs.len() > 0 ==> join_sep(cs.push(c), sep) == join_sep(cs, sep) + seq![sep] + c,
    decreases cs.len(),
{
    if cs.len() == 0 {
        assert(cs.push(c)[0] == c);
        assert(join_sep(cs.push(c), sep) == c);
    } else if cs.len() == 1 {
        assert(cs.push(c).drop_first() =~= seq![c]);
        assert(seq![c][0] == c);
        assert(join_sep(seq![c], sep) == c);
        assert(join_sep(cs.push(c), sep) == cs.push(c)[0] + seq![sep] + c);
        assert(cs.push(c)[0] == cs[0]);
    } else {
        lemma_join_push(cs.drop_first(), c, sep);
        assert(cs.push(c).drop_first() =~= cs.drop_first().push(c));
        assert(join_sep(cs.push(c), sep) == cs[0] + seq![sep] + join_sep(
            cs.drop_first().push(c),
            sep,
        ));
        assert(cs[0] + seq![sep] + (join_sep(cs.drop_first(), sep) + seq![sep] + c) =~= (cs[0]
            + seq![sep] + join_sep(cs.drop_first(), sep)) + seq![sep] + c);
    }
}

/// Appends to `out` the components joined with `sep`.
pub fn append_join(out: &mut Vec<u8>, cs: &Vec<Vec<u8>>, sep: u8)
    ensures
        final(out)@ == old(out)@ + join_sep(dv(cs@), sep),
{
    let mut i: usize = 0;
    proof {
        assert(out@ =~= old(out)@ + join_sep(dv(cs@).take(0), sep));
    }
    while i < cs.len()
        invariant
            i <= cs.len(),
            out@ == old(out)@ + join_sep(dv(cs@).take(i as int), sep),
        decreases cs.len() - i,
    {
        if i > 0 {
            out.push(sep);
        }
        append_bytes(out, &cs[i]);
        proof {
            let pre = dv(cs@).take(i as int);
            lemma_join_push(pre, cs@[i as int]@, sep);
            assert(dv(cs@).take(i + 1) =~= pre.push(cs@[i as int]@));
            if i > 0 {
                assert((old(out)@ + join_sep(pre, sep)).push(sep) + cs@[i as int]@ =~= old(out)@
                    + (join_sep(pre, sep) + seq![sep] + cs@[i as int]@));
            } else {
                assert(out@ =~= old(out)@ + join_sep(dv(cs@).take(1), sep));
            }
        }
        i = i + 1;
    }
    proof {
        assert(dv(cs@).take(cs@.len() as int) =~= dv(cs@));
    }
}



/// `dv` distributes over `push`.
pub proof fn lemma_dv_push(s: Seq<Vec<u8>>, v: Vec<u8>)
    ensures
        dv(s.push(v)) =~= dv(s).push(v@),
{
    assert forall|k: int| 0 <= k < s.len() + 1 implies dv(s.push(v))[k] == dv(s).push(v@)[k] by {
        if k < s.len() {
            assert(s.push(v)[k] == s[k]);
        } else {
            assert(s.push(v)[k] == v);
        }
    }
}

/// Clones a path given as a vector of components.
pub fn clone_path(p: &Vec<Vec<u8>>) -> (r: Vec<Vec<u8>>)
    ensures
        dv(r@) == dv(p@),
{
    let mut r: Vec<Vec<u8>> = Vec::new();
    let mut i: usize = 0;
    while i < p.len()
        invariant
            i <= p@.len(),
            dv(r@) == dv(p@).take(i as int),
        decreases p@.len() - i,
    {
        let c = clone_bytes(&p[i]);
        let ghost rpre = r@;
        let ghost cv = c@;
        r.push(c);
        proof {
            lemma_dv_push(rpre, r@.last());
            assert(dv(r@) =~= dv(rpre).push(cv));
            assert(dv(r@) =~= dv(p@).take(i + 1));
        }
        i = i + 1;
    }
    proof {
        assert(dv(p@).take(p@.len() as int) =~= dv(p@));
    }
    r
}

/// Bytewise equality of a byte vector and a slice; used with literals.
pub fn eq_lit(a: &Vec<u8>, s: &[u8]) -> (r: bool)
    ensures
        r == (a@ == s@),
{
    if a.len() != s.len() {
        proof {
            assert(a@ != s@) by {
                if a@ == s@ {
                    assert(a@.len() == s@.len());
                }
            }
        }
        return false;
    }
    let mut i: usize = 0;
    while i < a.len()
        invariant
            i <= a@.len(),
            a@.len() == s@.len(),
            forall|j: int| 0 <= j < i ==> a@[j] == s@[j],
        decreases a@.len() - i,
    {
        let c = *vstd::slice::slice_index_get(s, i);
        if a[i] != c {
            proof {
                assert(a@ != s@) by {
                    if a@ == s@ {
                        assert(a@[i as int] == s@[i as int]);
                    }
                }
            }
            return false;
        }
        i = i + 1;
    }
    proof {
        assert(a@ =~= s@);
    }
    true
}

} // verus!

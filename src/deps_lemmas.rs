//! Facts about the reference scanner of `deps`, leading to the idempotence of
//! upserting a Curse Maven declaration.
use vstd::prelude::*;
use crate::deps::{
    cf_coordinate, dialect_line, digits_start, mr_coordinate, cf_found, cf_id_at, cf_id_pred, cf_new_id, cf_ref_at, cf_ref_pred, first_from, is_vid,
    mr_found, mr_id_at, mr_id_pred, mr_new_id, mr_ref_at, mr_ref_pred, mr_ref_prefix, seg_end,
    upserted, vid_end, with_dependency,
};
use crate::gradle::{insert_before_close, lemma_first_block_bounds, top_level_block};
use crate::text::{decimal, digits_end, is_digit, lemma_digits_end_bounds, matches_at};

verus! {

pub proof fn lemma_first_from_none(t: Seq<char>, pred: spec_fn(int) -> bool, i: int, q: int)
    requires
        0 <= i <= q < t.len(),
        first_from(t, pred, i) is None,
    ensures
        !pred(q),
    decreases q - i,
{
    if i < q {
        lemma_first_from_none(t, pred, i + 1, q);
    }
}

pub proof fn lemma_first_from_some(t: Seq<char>, pred: spec_fn(int) -> bool, i: int)
    requires
        0 <= i,
        first_from(t, pred, i) is Some,
    ensures
        ({
            let q = first_from(t, pred, i)->0;
            i <= q < t.len() && pred(q) && forall|k: int| i <= k < q ==> !#[trigger] pred(k)
        }),
    decreases t.len() - i,
{
    if i < t.len() && !pred(i) {
        lemma_first_from_some(t, pred, i + 1);
    }
}

pub proof fn lemma_first_from_at(t: Seq<char>, pred: spec_fn(int) -> bool, i: int, q: int)
    requires
        0 <= i <= q < t.len(),
        pred(q),
        forall|k: int| i <= k < q ==> !#[trigger] pred(k),
    ensures
        first_from(t, pred, i) == Some(q),
    decreases q - i,
{
    if i < q {
        lemma_first_from_at(t, pred, i + 1, q);
    }
}

pub proof fn lemma_seg_end_bounds(t: Seq<char>, i: int)
    requires
        0 <= i <= t.len(),
    ensures
        i <= seg_end(t, i) <= t.len(),
        forall|k: int| i <= k < seg_end(t, i) ==> t[k] != ':' && t[k] != '\n',
        seg_end(t, i) < t.len() ==> (t[seg_end(t, i)] == ':' || t[seg_end(t, i)] == '\n'),
    decreases t.len() - i,
{
    if i < t.len() && t[i] != ':' && t[i] != '\n' {
        lemma_seg_end_bounds(t, i + 1);
    }
}

/// The run stops at the first `:` or line break.
pub proof fn lemma_seg_end_at_most(t: Seq<char>, i: int, j: int)
    requires
        0 <= i <= j < t.len(),
        t[j] == ':' || t[j] == '\n',
    ensures
        seg_end(t, i) <= j,
    decreases j - i,
{
    if i < j && t[i] != ':' && t[i] != '\n' {
        lemma_seg_end_at_most(t, i + 1, j);
    }
}

/// The run only depends on the text up to where it stops.
pub proof fn lemma_seg_end_prefix(a: Seq<char>, b: Seq<char>, i: int, k: int)
    requires
        0 <= i,
        k <= a.len(),
        k <= b.len(),
        a.subrange(0, k) == b.subrange(0, k),
        seg_end(a, i) < k,
    ensures
        seg_end(b, i) == seg_end(a, i),
    decreases a.len() - i,
{
    if i <= a.len() {
        lemma_seg_end_bounds(a, i);
    }
    if i < k {
        assert(a.subrange(0, k)[i] == a[i]);
        assert(b.subrange(0, k)[i] == b[i]);
    }
    if i < a.len() && a[i] != ':' && a[i] != '\n' {
        lemma_seg_end_prefix(a, b, i + 1, k);
    }
}

/// The run within `a + b` started inside `b` is the run within `b`, shifted.
pub proof fn lemma_seg_end_shift(a: Seq<char>, b: Seq<char>, i: int)
    requires
        0 <= i <= b.len(),
    ensures
        seg_end(a + b, a.len() + i) == a.len() + seg_end(b, i),
    decreases b.len() - i,
{
    if i < b.len() {
        assert((a + b)[a.len() + i] == b[i]);
        if b[i] != ':' && b[i] != '\n' {
            lemma_seg_end_shift(a, b, i + 1);
        }
    }
}

pub proof fn lemma_prefix_literal()
    ensures
        "curse.maven:"@.len() == 12,
        "curse.maven:"@[0] == 'c',
        "curse.maven:"@[11] == ':',
        forall|k: int| 0 <= k < 12 ==> "curse.maven:"@[k] != '\n',
{
    reveal_strlit("curse.maven:");
}

/// Whether a reference stands at `q` depends only on the text up to just after the
/// `:` that ends its run.
pub proof fn lemma_cf_ref_prefix(a: Seq<char>, b: Seq<char>, q: int, m: Seq<char>, k: int)
    requires
        0 <= q,
        q + 12 <= k,
        k <= a.len(),
        k <= b.len(),
        a.subrange(0, k) == b.subrange(0, k),
        seg_end(a, q + 12) + 1 < k,
    ensures
        cf_ref_at(a, q, m) == cf_ref_at(b, q, m),
{
    lemma_prefix_literal();
    lemma_seg_end_bounds(a, q + 12);
    lemma_seg_end_prefix(a, b, q + 12, k);
    let c = seg_end(a, q + 12);
    assert(a.subrange(0, k)[c] == a[c]);
    assert(b.subrange(0, k)[c] == b[c]);
    assert(a.subrange(0, k)[c + 1] == a[c + 1]);
    assert(b.subrange(0, k)[c + 1] == b[c + 1]);
    assert(a.subrange(q, q + 12) =~= a.subrange(0, k).subrange(q, q + 12));
    assert(b.subrange(q, q + 12) =~= b.subrange(0, k).subrange(q, q + 12));
    let w = c - m.len() - 1;
    if 0 <= w {
        assert(a.subrange(w, c) =~= a.subrange(0, k).subrange(w, c));
        assert(b.subrange(w, c) =~= b.subrange(0, k).subrange(w, c));
    }
    assert(seg_end(b, q + 12) == c);
    assert(matches_at(a, q, "curse.maven:"@) == matches_at(b, q, "curse.maven:"@));
    assert(matches_at(a, w, seq!['-'] + m) == matches_at(b, w, seq!['-'] + m));
    assert(a[c] == b[c]);
    assert(a[c + 1] == b[c + 1]);
}

/// A reference holds no line break between its start and the digit after its `:`.
pub proof fn lemma_cf_ref_one_line(t: Seq<char>, q: int, m: Seq<char>, j: int)
    requires
        cf_ref_at(t, q, m),
        q <= j <= seg_end(t, q + 12) + 1,
    ensures
        t[j] != '\n',
        t[q] == 'c',
{
    lemma_prefix_literal();
    lemma_seg_end_bounds(t, q + 12);
    if j < q + 12 {
        assert(t.subrange(q, q + 12)[j - q] == t[j]);
    }
    assert(t.subrange(q, q + 12)[0] == t[q]);
}

/// References within `b` are references within `a + b`, shifted.
pub proof fn lemma_cf_ref_shift(a: Seq<char>, b: Seq<char>, x: int, m: Seq<char>)
    requires
        0 <= x < b.len(),
    ensures
        cf_ref_at(a + b, a.len() + x, m) == cf_ref_at(b, x, m),
{
    lemma_prefix_literal();
    let ab = a + b;
    let q = a.len() + x;
    if x + 12 <= b.len() {
        lemma_seg_end_shift(a, b, x + 12);
        lemma_seg_end_bounds(b, x + 12);
        assert(ab.subrange(q, q + 12) =~= b.subrange(x, x + 12));
        let c = seg_end(b, x + 12);
        if c + 1 < b.len() {
            assert(ab[a.len() + c] == b[c]);
            assert(ab[a.len() + c + 1] == b[c + 1]);
        }
        let w = c - m.len() - 1;
        if x + 12 <= w {
            assert(ab.subrange(a.len() + w, a.len() + c) =~= b.subrange(w, c));
        }
    } else {
        if matches_at(ab, q, "curse.maven:"@) {
            assert(false);
        }
    }
}

pub proof fn lemma_digits_end_exact(x: Seq<char>, i: int, j: int)
    requires
        0 <= i <= j <= x.len(),
        forall|k: int| i <= k < j ==> is_digit(x[k]),
        j == x.len() || !is_digit(x[j]),
    ensures
        digits_end(x, i) == j,
    decreases j - i,
{
    if i < j {
        lemma_digits_end_exact(x, i + 1, j);
    }
}

/// What `cf_found` reports: the first reference, the `:` that ends its run, and
/// the maximal run of digits after it.
pub proof fn lemma_cf_found_facts(t: Seq<char>, m: Seq<char>)
    ensures
        match cf_found(t, m) {
            Some((q, ds, de)) => {
                &&& 0 <= q < t.len()
                &&& cf_ref_at(t, q, m)
                &&& forall|k: int| 0 <= k < q ==> !cf_ref_at(t, k, m)
                &&& ds == seg_end(t, q + 12) + 1
                &&& q + 12 < ds < de <= t.len()
                &&& de == digits_end(t, ds)
                &&& forall|k: int| ds <= k < de ==> is_digit(t[k])
                &&& (de == t.len() || !is_digit(t[de]))
            },
            None => forall|k: int| 0 <= k < t.len() ==> !cf_ref_at(t, k, m),
        },
{
    lemma_prefix_literal();
    let pred = cf_ref_pred(t, m);
    match first_from(t, pred, 0) {
        Some(q) => {
            lemma_first_from_some(t, pred, 0);
            assert forall|k: int| 0 <= k < q implies !cf_ref_at(t, k, m) by {
                assert(!pred(k));
            }
            assert(pred(q));
            lemma_seg_end_bounds(t, q + 12);
            let ds = seg_end(t, q + 12) + 1;
            lemma_digits_end_bounds(t, ds);
        },
        None => {
            assert forall|k: int| 0 <= k < t.len() implies !cf_ref_at(t, k, m) by {
                lemma_first_from_none(t, pred, 0, k);
            }
        },
    }
}

/// The new file id carried by a declaration line is a non-empty run of digits.
pub proof fn lemma_cf_new_id_digits(line: Seq<char>)
    requires
        cf_new_id(line) is Some,
    ensures
        cf_new_id(line)->0.len() >= 1,
        forall|k: int| 0 <= k < cf_new_id(line)->0.len() ==> is_digit(cf_new_id(line)->0[k]),
{
    lemma_prefix_literal();
    let pred = cf_id_pred(line);
    lemma_first_from_some(line, pred, 0);
    let q = first_from(line, pred, 0)->0;
    assert(pred(q));
    assert(cf_id_at(line, q));
    lemma_seg_end_bounds(line, q + 12);
    let s = seg_end(line, q + 12) + 1;
    lemma_digits_end_bounds(line, s);
    let n = line.subrange(s, digits_end(line, s));
    assert forall|k: int| 0 <= k < n.len() implies is_digit(n[k]) by {
        assert(n[k] == line[s + k]);
    }
}

/// A reference that starts at or before a line break ends two places before it.
pub proof fn lemma_cf_ref_before_break(x: Seq<char>, q: int, m: Seq<char>, j: int)
    requires
        cf_ref_at(x, q, m),
        0 <= q <= j < x.len(),
        x[j] == '\n',
    ensures
        q + 12 <= seg_end(x, q + 12) && seg_end(x, q + 12) + 1 < j,
{
    lemma_prefix_literal();
    lemma_seg_end_bounds(x, q + 12);
    lemma_cf_ref_one_line(x, q, m, q);
    if seg_end(x, q + 12) + 1 >= j {
        lemma_cf_ref_one_line(x, q, m, j);
    }
}

/// Replacing the file id of the first reference keeps that reference first, with
/// the new digits as its file id.
pub proof fn lemma_cf_found_after_replace(t: Seq<char>, m: Seq<char>, n: Seq<char>)
    requires
        cf_found(t, m) is Some,
        n.len() >= 1,
        forall|k: int| 0 <= k < n.len() ==> is_digit(n[k]),
    ensures
        ({
            let (q, ds, de) = cf_found(t, m)->0;
            let once = t.subrange(0, ds) + n + t.subrange(de, t.len() as int);
            cf_found(once, m) == Some((q, ds, ds + n.len()))
        }),
{
    lemma_prefix_literal();
    lemma_cf_found_facts(t, m);
    let (q, ds, de) = cf_found(t, m)->0;
    let once = t.subrange(0, ds) + n + t.subrange(de, t.len() as int);
    assert(once.subrange(0, ds) =~= t.subrange(0, ds));
    assert(t[q + 11] == ':') by {
        assert(t.subrange(q, q + 12)[11] == t[q + 11]);
    }
    assert forall|k: int| 0 <= k < q implies !cf_ref_at(once, k, m) by {
        lemma_seg_end_at_most(t, k + 12, q + 11);
        lemma_cf_ref_prefix(t, once, k, m, ds);
    }
    lemma_seg_end_bounds(t, q + 12);
    lemma_seg_end_prefix(t, once, q + 12, ds);
    let c = ds - 1;
    assert(once[c] == t[c]);
    assert(once[ds] == n[0]);
    assert(once.subrange(q, q + 12) =~= t.subrange(q, q + 12));
    let w = c - m.len() - 1;
    assert(once.subrange(w, c) =~= t.subrange(w, c));
    assert(cf_ref_at(once, q, m));
    lemma_first_from_at(once, cf_ref_pred(once, m), 0, q);
    assert forall|k: int| ds <= k < ds + n.len() implies is_digit(once[k]) by {
        assert(once[k] == n[k - ds]);
    }
    if ds + n.len() < once.len() {
        assert(once[ds + n.len()] == t[de]);
    }
    lemma_digits_end_exact(once, ds, ds + n.len());
}

/// A single line inserted after a line break, and followed by one, becomes the
/// first reference when the text before it has none.
pub proof fn lemma_cf_found_after_insert(a: Seq<char>, line: Seq<char>, b: Seq<char>, m: Seq<char>)
    requires
        a.len() >= 1,
        a[a.len() - 1] == '\n',
        forall|k: int| 0 <= k < a.len() ==> !cf_ref_at(a, k, m),
        !line.contains('\n'),
        b.len() >= 1,
        b[0] == '\n',
        cf_found(line, m) is Some,
    ensures
        ({
            let (q0, ds0, de0) = cf_found(line, m)->0;
            cf_found(a + line + b, m) == Some((a.len() + q0, a.len() + ds0, a.len() + de0))
        }),
{
    lemma_prefix_literal();
    lemma_cf_found_facts(line, m);
    let (q0, ds0, de0) = cf_found(line, m)->0;
    let lb = line + b;
    let w = a + line + b;
    assert(w =~= a + lb);
    assert(lb[line.len() as int] == '\n');
    assert(w.subrange(0, a.len() as int) =~= a);
    assert forall|k: int| 0 <= k < a.len() implies !cf_ref_at(w, k, m) by {
        if cf_ref_at(w, k, m) {
            assert(w[a.len() - 1] == a[a.len() - 1]);
            lemma_cf_ref_before_break(w, k, m, a.len() - 1);
            assert(w.subrange(0, a.len() - 1) =~= a.subrange(0, a.len() - 1));
            lemma_cf_ref_prefix(w, a, k, m, a.len() - 1);
        }
    }
    assert(lb.subrange(0, line.len() as int) =~= line);
    lemma_seg_end_bounds(line, q0 + 12);
    assert(line.subrange(0, line.len() as int) =~= lb.subrange(0, line.len() as int));
    lemma_cf_ref_prefix(line, lb, q0, m, line.len() as int);
    lemma_cf_ref_shift(a, lb, q0, m);
    let q = a.len() + q0;
    assert(cf_ref_at(w, q, m));
    assert forall|k: int| 0 <= k < q implies !cf_ref_at(w, k, m) by {
        if k >= a.len() {
            let x = k - a.len();
            lemma_cf_ref_shift(a, lb, x, m);
            if cf_ref_at(lb, x, m) {
                lemma_cf_ref_before_break(lb, x, m, line.len() as int);
                assert(line.subrange(0, line.len() as int) =~= lb.subrange(0, line.len() as int));
                lemma_cf_ref_prefix(lb, line, x, m, line.len() as int);
            }
        }
    }
    lemma_first_from_at(w, cf_ref_pred(w, m), 0, q);
    assert(line.subrange(0, line.len() as int) =~= lb.subrange(0, line.len() as int));
    lemma_seg_end_prefix(line, lb, q0 + 12, line.len() as int);
    lemma_seg_end_shift(a, lb, q0 + 12);
    assert(seg_end(w, q + 12) == a.len() + seg_end(line, q0 + 12));
    let ds = a.len() + ds0;
    let de = a.len() + de0;
    assert forall|k: int| ds <= k < de implies is_digit(w[k]) by {
        assert(w[k] == line[k - a.len()]);
    }
    if de0 < line.len() {
        assert(w[de] == line[de0]);
    } else {
        assert(w[de] == b[0]);
    }
    lemma_digits_end_exact(w, ds, de);
}

proof fn lemma_no_ref_in_prefix(t: Seq<char>, a: Seq<char>, m: Seq<char>)
    requires
        forall|k: int| 0 <= k < t.len() ==> !cf_ref_at(t, k, m),
        a.len() >= 1,
        a[a.len() - 1] == '\n',
        a.len() - 1 <= t.len(),
        a.subrange(0, a.len() - 1) == t.subrange(0, a.len() - 1),
    ensures
        forall|k: int| 0 <= k < a.len() ==> !cf_ref_at(a, k, m),
{
    assert forall|k: int| 0 <= k < a.len() implies !cf_ref_at(a, k, m) by {
        if cf_ref_at(a, k, m) {
            lemma_cf_ref_before_break(a, k, m, a.len() - 1);
            lemma_cf_ref_prefix(a, t, k, m, a.len() - 1);
        }
    }
}

/// The text before the inserted line holds no reference when the script held none.
proof fn lemma_with_dependency_split(t: Seq<char>, line: Seq<char>, m: Seq<char>)
    requires
        forall|k: int| 0 <= k < t.len() ==> !cf_ref_at(t, k, m),
    ensures
        exists|a: Seq<char>, b: Seq<char>|
            {
                &&& a.len() >= 1
                &&& a[a.len() - 1] == '\n'
                &&& forall|k: int| 0 <= k < a.len() ==> !cf_ref_at(a, k, m)
                &&& b.len() >= 1
                &&& b[0] == '\n'
                &&& #[trigger] with_dependency(t, line) == a + line + b
            },
{
    match top_level_block(t, "dependencies"@) {
        Some((s, e)) => {
            lemma_first_block_bounds(t, "dependencies"@, 0);
            let sep = if s < e && t[e - 1] == '\n' {
                Seq::<char>::empty()
            } else {
                seq!['\n']
            };
            let a = t.subrange(0, e) + sep;
            let b = seq!['\n'] + t.subrange(e, t.len() as int);
            assert(insert_before_close(t, s, e, line) =~= a + line + b);
            if sep.len() == 0 {
                assert(a =~= t.subrange(0, e));
                assert(a.subrange(0, a.len() - 1) =~= t.subrange(0, e - 1));
            } else {
                assert(a.subrange(0, a.len() - 1) =~= t.subrange(0, e));
            }
            lemma_no_ref_in_prefix(t, a, m);
            assert(with_dependency(t, line) == a + line + b);
        },
        None => {
            let lit = "\ndependencies {\n"@;
            reveal_strlit("\ndependencies {\n");
            let a = t + lit;
            let b = "\n}\n"@;
            reveal_strlit("\n}\n");
            assert(b[0] == '\n');
            assert(a[a.len() - 1] == '\n');
            assert forall|k: int| 0 <= k < a.len() implies !cf_ref_at(a, k, m) by {
                if cf_ref_at(a, k, m) {
                    lemma_cf_ref_before_break(a, k, m, a.len() - 1);
                    lemma_cf_ref_one_line(a, k, m, k);
                    if k <= t.len() {
                        assert(a[t.len() as int] == '\n');
                        lemma_cf_ref_before_break(a, k, m, t.len() as int);
                        assert(a.subrange(0, t.len() as int) =~= t);
                        assert(t.subrange(0, t.len() as int) =~= t);
                        lemma_cf_ref_prefix(a, t, k, m, t.len() as int);
                    } else {
                        lemma_prefix_literal();
                        assert(k == t.len() + 1);
                        assert(a[k] == lit[1]);
                    }
                }
            }
            assert(with_dependency(t, line) == a + line + b);
        },
    }
}

/// Upserting the same Curse Maven declaration a second time changes nothing, for a
/// declaration that is one line, refers to the module, and carries as its new file id
/// the file id of that reference (as the lines that `generate_dep` composes do).
pub proof fn lemma_upsert_cf_idempotent(t: Seq<char>, modid: Seq<char>, line: Seq<char>)
    requires
        !line.contains('\n'),
        cf_new_id(line) is Some,
        cf_found(line, modid) matches Some((q0, ds0, de0)) && line.subrange(ds0, de0)
            == cf_new_id(line)->0,
    ensures
        ({
            let once = upserted(t, cf_found(t, modid), cf_new_id(line), line);
            upserted(once, cf_found(once, modid), cf_new_id(line), line) == once
        }),
{
    let n = cf_new_id(line)->0;
    lemma_cf_new_id_digits(line);
    lemma_cf_found_facts(t, modid);
    match cf_found(t, modid) {
        Some((q, ds, de)) => {
            lemma_cf_found_after_replace(t, modid, n);
            let once = t.subrange(0, ds) + n + t.subrange(de, t.len() as int);
            assert(once.subrange(0, ds) + n + once.subrange(ds + n.len(), once.len() as int)
                =~= once);
        },
        None => {
            lemma_with_dependency_split(t, line, modid);
            let (a, b) = choose|a: Seq<char>, b: Seq<char>|
                {
                    &&& a.len() >= 1
                    &&& a[a.len() - 1] == '\n'
                    &&& forall|k: int| 0 <= k < a.len() ==> !cf_ref_at(a, k, modid)
                    &&& b.len() >= 1
                    &&& b[0] == '\n'
                    &&& #[trigger] with_dependency(t, line) == a + line + b
                };
            lemma_cf_found_after_insert(a, line, b, modid);
            lemma_cf_found_facts(line, modid);
            let (q0, ds0, de0) = cf_found(line, modid)->0;
            let w = a + line + b;
            let ds = a.len() + ds0;
            let de = a.len() + de0;
            assert(w.subrange(ds, de) =~= line.subrange(ds0, de0));
            assert(w.subrange(0, ds) + n + w.subrange(de, w.len() as int) =~= w);
        },
    }
}

pub proof fn lemma_vid_end_bounds(t: Seq<char>, i: int)
    requires
        0 <= i <= t.len(),
    ensures
        i <= vid_end(t, i) <= t.len(),
        forall|k: int| i <= k < vid_end(t, i) ==> is_vid(t[k]),
        vid_end(t, i) < t.len() ==> !is_vid(t[vid_end(t, i)]),
    decreases t.len() - i,
{
    if i < t.len() && is_vid(t[i]) {
        lemma_vid_end_bounds(t, i + 1);
    }
}

pub proof fn lemma_vid_end_exact(x: Seq<char>, i: int, j: int)
    requires
        0 <= i <= j <= x.len(),
        forall|k: int| i <= k < j ==> is_vid(x[k]),
        j == x.len() || !is_vid(x[j]),
    ensures
        vid_end(x, i) == j,
    decreases j - i,
{
    if i < j {
        lemma_vid_end_exact(x, i + 1, j);
    }
}

/// The text a Modrinth reference starts with has no line break when the slug has none.
pub proof fn lemma_mr_prefix_literal(slug: Seq<char>)
    requires
        !slug.contains('\n'),
    ensures
        mr_ref_prefix(slug).len() == 16 + slug.len(),
        mr_ref_prefix(slug)[0] == 'm',
        forall|k: int| 0 <= k < mr_ref_prefix(slug).len() ==> mr_ref_prefix(slug)[k] != '\n',
{
    reveal_strlit("maven.modrinth:");
    reveal_strlit(":");
    let p = mr_ref_prefix(slug);
    assert forall|k: int| 0 <= k < p.len() implies p[k] != '\n' by {
        if 15 <= k < 15 + slug.len() {
            assert(p[k] == slug[k - 15]);
        }
    }
}

pub proof fn lemma_mr_found_facts(t: Seq<char>, slug: Seq<char>)
    ensures
        match mr_found(t, slug) {
            Some((q, ds, de)) => {
                &&& 0 <= q < t.len()
                &&& mr_ref_at(t, q, slug)
                &&& forall|k: int| 0 <= k < q ==> !mr_ref_at(t, k, slug)
                &&& ds == q + mr_ref_prefix(slug).len()
                &&& ds < de <= t.len()
                &&& de == vid_end(t, ds)
                &&& forall|k: int| ds <= k < de ==> is_vid(t[k])
                &&& (de == t.len() || !is_vid(t[de]))
            },
            None => forall|k: int| 0 <= k < t.len() ==> !mr_ref_at(t, k, slug),
        },
{
    let pred = mr_ref_pred(t, slug);
    match first_from(t, pred, 0) {
        Some(q) => {
            lemma_first_from_some(t, pred, 0);
            assert forall|k: int| 0 <= k < q implies !mr_ref_at(t, k, slug) by {
                assert(!pred(k));
            }
            assert(pred(q));
            lemma_vid_end_bounds(t, q + mr_ref_prefix(slug).len());
        },
        None => {
            assert forall|k: int| 0 <= k < t.len() implies !mr_ref_at(t, k, slug) by {
                lemma_first_from_none(t, pred, 0, k);
            }
        },
    }
}

pub proof fn lemma_mr_new_id_chars(line: Seq<char>)
    requires
        mr_new_id(line) is Some,
    ensures
        mr_new_id(line)->0.len() >= 1,
        forall|k: int| 0 <= k < mr_new_id(line)->0.len() ==> is_vid(mr_new_id(line)->0[k]),
{
    reveal_strlit("maven.modrinth:");
    let pred = mr_id_pred(line);
    lemma_first_from_some(line, pred, 0);
    let q = first_from(line, pred, 0)->0;
    assert(pred(q));
    assert(mr_id_at(line, q));
    lemma_seg_end_bounds(line, q + 15);
    let s = seg_end(line, q + 15) + 1;
    lemma_vid_end_bounds(line, s);
    let n = line.subrange(s, vid_end(line, s));
    assert forall|k: int| 0 <= k < n.len() implies is_vid(n[k]) by {
        assert(n[k] == line[s + k]);
    }
}

/// Whether a Modrinth reference stands at `q` depends only on the text up to the
/// character after its prefix.
pub proof fn lemma_mr_ref_prefix(a: Seq<char>, b: Seq<char>, q: int, slug: Seq<char>, k: int)
    requires
        0 <= q,
        q + mr_ref_prefix(slug).len() < k,
        k <= a.len(),
        k <= b.len(),
        a.subrange(0, k) == b.subrange(0, k),
    ensures
        mr_ref_at(a, q, slug) == mr_ref_at(b, q, slug),
{
    let e = q + mr_ref_prefix(slug).len();
    assert(a.subrange(q, e) =~= a.subrange(0, k).subrange(q, e));
    assert(b.subrange(q, e) =~= b.subrange(0, k).subrange(q, e));
    assert(a.subrange(0, k)[e] == a[e]);
    assert(b.subrange(0, k)[e] == b[e]);
}

pub proof fn lemma_mr_ref_before_break(x: Seq<char>, q: int, slug: Seq<char>, j: int)
    requires
        !slug.contains('\n'),
        mr_ref_at(x, q, slug),
        0 <= q <= j < x.len(),
        x[j] == '\n',
    ensures
        q + mr_ref_prefix(slug).len() < j,
{
    lemma_mr_prefix_literal(slug);
    let p = mr_ref_prefix(slug);
    if j <= q + p.len() {
        if j < q + p.len() {
            assert(x.subrange(q, q + p.len())[j - q] == x[j]);
        }
    }
}

pub proof fn lemma_mr_ref_starts(x: Seq<char>, q: int, slug: Seq<char>)
    requires
        !slug.contains('\n'),
        mr_ref_at(x, q, slug),
    ensures
        x[q] == 'm',
{
    lemma_mr_prefix_literal(slug);
    assert(x.subrange(q, q + mr_ref_prefix(slug).len())[0] == x[q]);
}

pub proof fn lemma_mr_ref_shift(a: Seq<char>, b: Seq<char>, x: int, slug: Seq<char>)
    requires
        0 <= x < b.len(),
    ensures
        mr_ref_at(a + b, a.len() + x, slug) == mr_ref_at(b, x, slug),
{
    let ab = a + b;
    let p = mr_ref_prefix(slug);
    let q = a.len() + x;
    if x + p.len() < b.len() {
        assert(ab.subrange(q, q + p.len()) =~= b.subrange(x, x + p.len()));
        assert(ab[q + p.len()] == b[x + p.len()]);
    } else if x + p.len() == b.len() {
        assert(ab.subrange(q, q + p.len()) =~= b.subrange(x, x + p.len()));
    }
}

pub proof fn lemma_mr_found_after_replace(t: Seq<char>, slug: Seq<char>, n: Seq<char>)
    requires
        mr_found(t, slug) is Some,
        n.len() >= 1,
        forall|k: int| 0 <= k < n.len() ==> is_vid(n[k]),
    ensures
        ({
            let (q, ds, de) = mr_found(t, slug)->0;
            let once = t.subrange(0, ds) + n + t.subrange(de, t.len() as int);
            mr_found(once, slug) == Some((q, ds, ds + n.len()))
        }),
{
    lemma_mr_found_facts(t, slug);
    let (q, ds, de) = mr_found(t, slug)->0;
    let once = t.subrange(0, ds) + n + t.subrange(de, t.len() as int);
    assert(once.subrange(0, ds) =~= t.subrange(0, ds));
    assert forall|k: int| 0 <= k < q implies !mr_ref_at(once, k, slug) by {
        lemma_mr_ref_prefix(t, once, k, slug, ds);
    }
    assert(once.subrange(q, ds) =~= t.subrange(q, ds));
    assert(once[ds] == n[0]);
    assert(mr_ref_at(once, q, slug));
    lemma_first_from_at(once, mr_ref_pred(once, slug), 0, q);
    assert forall|k: int| ds <= k < ds + n.len() implies is_vid(once[k]) by {
        assert(once[k] == n[k - ds]);
    }
    if ds + n.len() < once.len() {
        assert(once[ds + n.len()] == t[de]);
    }
    lemma_vid_end_exact(once, ds, ds + n.len());
}

pub proof fn lemma_mr_found_after_insert(
    a: Seq<char>,
    line: Seq<char>,
    b: Seq<char>,
    slug: Seq<char>,
)
    requires
        !slug.contains('\n'),
        a.len() >= 1,
        a[a.len() - 1] == '\n',
        forall|k: int| 0 <= k < a.len() ==> !mr_ref_at(a, k, slug),
        !line.contains('\n'),
        b.len() >= 1,
        b[0] == '\n',
        mr_found(line, slug) is Some,
    ensures
        ({
            let (q0, ds0, de0) = mr_found(line, slug)->0;
            mr_found(a + line + b, slug) == Some((a.len() + q0, a.len() + ds0, a.len() + de0))
        }),
{
    lemma_mr_found_facts(line, slug);
    let (q0, ds0, de0) = mr_found(line, slug)->0;
    let lb = line + b;
    let w = a + line + b;
    assert(w =~= a + lb);
    assert(lb[line.len() as int] == '\n');
    assert(w.subrange(0, a.len() - 1) =~= a.subrange(0, a.len() - 1));
    assert(line.subrange(0, line.len() as int) =~= lb.subrange(0, line.len() as int));
    let pl = mr_ref_prefix(slug).len();
    assert forall|k: int| 0 <= k < a.len() implies !mr_ref_at(w, k, slug) by {
        if mr_ref_at(w, k, slug) {
            assert(w[a.len() - 1] == a[a.len() - 1]);
            lemma_mr_ref_before_break(w, k, slug, a.len() - 1);
            lemma_mr_ref_prefix(w, a, k, slug, a.len() - 1);
        }
    }
    let q = a.len() + q0;
    assert forall|k: int| 0 <= k < q implies !mr_ref_at(w, k, slug) by {
        if k >= a.len() {
            let x = k - a.len();
            lemma_mr_ref_shift(a, lb, x, slug);
            if mr_ref_at(lb, x, slug) {
                lemma_mr_ref_before_break(lb, x, slug, line.len() as int);
                lemma_mr_ref_prefix(lb, line, x, slug, line.len() as int);
            }
        }
    }
    lemma_mr_ref_prefix(line, lb, q0, slug, line.len() as int);
    lemma_mr_ref_shift(a, lb, q0, slug);
    assert(mr_ref_at(w, q, slug));
    lemma_first_from_at(w, mr_ref_pred(w, slug), 0, q);
    let ds = a.len() + ds0;
    let de = a.len() + de0;
    assert forall|k: int| ds <= k < de implies is_vid(w[k]) by {
        assert(w[k] == line[k - a.len()]);
    }
    if de0 < line.len() {
        assert(w[de] == line[de0]);
    } else {
        assert(w[de] == b[0]);
    }
    lemma_vid_end_exact(w, ds, de);
}

proof fn lemma_mr_no_ref_in_prefix(t: Seq<char>, a: Seq<char>, slug: Seq<char>)
    requires
        !slug.contains('\n'),
        forall|k: int| 0 <= k < t.len() ==> !mr_ref_at(t, k, slug),
        a.len() >= 1,
        a[a.len() - 1] == '\n',
        a.len() - 1 <= t.len(),
        a.subrange(0, a.len() - 1) == t.subrange(0, a.len() - 1),
    ensures
        forall|k: int| 0 <= k < a.len() ==> !mr_ref_at(a, k, slug),
{
    assert forall|k: int| 0 <= k < a.len() implies !mr_ref_at(a, k, slug) by {
        if mr_ref_at(a, k, slug) {
            lemma_mr_ref_before_break(a, k, slug, a.len() - 1);
            lemma_mr_ref_prefix(a, t, k, slug, a.len() - 1);
        }
    }
}

proof fn lemma_mr_with_dependency_split(t: Seq<char>, line: Seq<char>, slug: Seq<char>)
    requires
        !slug.contains('\n'),
        forall|k: int| 0 <= k < t.len() ==> !mr_ref_at(t, k, slug),
    ensures
        exists|a: Seq<char>, b: Seq<char>|
            {
                &&& a.len() >= 1
                &&& a[a.len() - 1] == '\n'
                &&& forall|k: int| 0 <= k < a.len() ==> !mr_ref_at(a, k, slug)
                &&& b.len() >= 1
                &&& b[0] == '\n'
                &&& #[trigger] with_dependency(t, line) == a + line + b
            },
{
    match top_level_block(t, "dependencies"@) {
        Some((s, e)) => {
            lemma_first_block_bounds(t, "dependencies"@, 0);
            let sep = if s < e && t[e - 1] == '\n' {
                Seq::<char>::empty()
            } else {
                seq!['\n']
            };
            let a = t.subrange(0, e) + sep;
            let b = seq!['\n'] + t.subrange(e, t.len() as int);
            assert(insert_before_close(t, s, e, line) =~= a + line + b);
            if sep.len() == 0 {
                assert(a =~= t.subrange(0, e));
                assert(a.subrange(0, a.len() - 1) =~= t.subrange(0, e - 1));
            } else {
                assert(a.subrange(0, a.len() - 1) =~= t.subrange(0, e));
            }
            lemma_mr_no_ref_in_prefix(t, a, slug);
            assert(with_dependency(t, line) == a + line + b);
        },
        None => {
            let lit = "\ndependencies {\n"@;
            reveal_strlit("\ndependencies {\n");
            let a = t + lit;
            let b = "\n}\n"@;
            reveal_strlit("\n}\n");
            assert(b[0] == '\n');
            assert(a[a.len() - 1] == '\n');
            assert forall|k: int| 0 <= k < a.len() implies !mr_ref_at(a, k, slug) by {
                if mr_ref_at(a, k, slug) {
                    lemma_mr_ref_starts(a, k, slug);
                    if k <= t.len() {
                        assert(a[t.len() as int] == '\n');
                        lemma_mr_ref_before_break(a, k, slug, t.len() as int);
                        assert(a.subrange(0, t.len() as int) =~= t);
                        assert(t.subrange(0, t.len() as int) =~= t);
                        lemma_mr_ref_prefix(a, t, k, slug, t.len() as int);
                    } else {
                        lemma_mr_ref_before_break(a, k, slug, a.len() - 1);
                        lemma_mr_prefix_literal(slug);
                        assert(a[k] == lit[k - t.len()]);
                    }
                }
            }
            assert(with_dependency(t, line) == a + line + b);
        },
    }
}

/// Upserting the same Modrinth declaration a second time changes nothing, for a
/// project slug without line breaks and a declaration that is one line, refers to the
/// project, and carries as its new version id the version id of that reference (as
/// the lines that `generate_mr_dep` composes do).
pub proof fn lemma_upsert_mr_idempotent(t: Seq<char>, slug: Seq<char>, line: Seq<char>)
    requires
        !slug.contains('\n'),
        !line.contains('\n'),
        mr_new_id(line) is Some,
        mr_found(line, slug) matches Some((q0, ds0, de0)) && line.subrange(ds0, de0)
            == mr_new_id(line)->0,
    ensures
        ({
            let once = upserted(t, mr_found(t, slug), mr_new_id(line), line);
            upserted(once, mr_found(once, slug), mr_new_id(line), line) == once
        }),
{
    let n = mr_new_id(line)->0;
    lemma_mr_new_id_chars(line);
    lemma_mr_found_facts(t, slug);
    match mr_found(t, slug) {
        Some((q, ds, de)) => {
            lemma_mr_found_after_replace(t, slug, n);
            let once = t.subrange(0, ds) + n + t.subrange(de, t.len() as int);
            assert(once.subrange(0, ds) + n + once.subrange(ds + n.len(), once.len() as int)
                =~= once);
        },
        None => {
            lemma_mr_with_dependency_split(t, line, slug);
            let (a, b) = choose|a: Seq<char>, b: Seq<char>|
                {
                    &&& a.len() >= 1
                    &&& a[a.len() - 1] == '\n'
                    &&& forall|k: int| 0 <= k < a.len() ==> !mr_ref_at(a, k, slug)
                    &&& b.len() >= 1
                    &&& b[0] == '\n'
                    &&& #[trigger] with_dependency(t, line) == a + line + b
                };
            lemma_mr_found_after_insert(a, line, b, slug);
            lemma_mr_found_facts(line, slug);
            let (q0, ds0, de0) = mr_found(line, slug)->0;
            let w = a + line + b;
            let ds = a.len() + ds0;
            let de = a.len() + de0;
            assert(w.subrange(ds, de) =~= line.subrange(ds0, de0));
            assert(w.subrange(0, ds) + n + w.subrange(de, w.len() as int) =~= w);
        },
    }
}

/// Text of a dialect line before the coordinate.
pub open spec fn dialect_prefix(l: Seq<char>) -> Seq<char> {
    if l == "forge"@ {
        "    implementation fg.deobf(\""@
    } else if l == "fabric"@ || l == "quilt"@ {
        "    modImplementation \""@
    } else {
        "    implementation \""@
    }
}

/// Text of a dialect line after the coordinate.
pub open spec fn dialect_suffix(l: Seq<char>) -> Seq<char> {
    if l == "forge"@ {
        "\")"@
    } else {
        "\""@
    }
}

/// A dialect line is its prefix, the coordinate and its suffix; the prefix holds no
/// `c`, no line break and no `ma`, and the suffix starts with a quote and holds no
/// line break.
proof fn lemma_dialect_parts(l: Seq<char>, coord: Seq<char>)
    requires
        dialect_line(l, coord) is Some,
    ensures
        dialect_line(l, coord)->0 == dialect_prefix(l) + coord + dialect_suffix(l),
        dialect_prefix(l).len() >= 1,
        forall|k: int| 0 <= k < dialect_prefix(l).len() ==> #[trigger] dialect_prefix(l)[k] != 'c'
            && dialect_prefix(l)[k] != '\n' && dialect_prefix(l)[k] != 'm' || (
            dialect_prefix(l)[k] == 'm' && k + 1 < dialect_prefix(l).len() && dialect_prefix(l)[k
            + 1] != 'a'),
        dialect_suffix(l).len() >= 1,
        dialect_suffix(l)[0] == '"',
        forall|k: int| 0 <= k < dialect_suffix(l).len() ==> #[trigger] dialect_suffix(l)[k] != '\n',
{
    reveal_strlit("    implementation fg.deobf(\"");
    reveal_strlit("    modImplementation \"");
    reveal_strlit("    implementation \"");
    reveal_strlit("\")");
    reveal_strlit("\"");
}

proof fn lemma_decimal_digits(n: nat)
    ensures
        decimal(n).len() >= 1,
        forall|k: int| 0 <= k < decimal(n).len() ==> #[trigger] is_digit(decimal(n)[k]),
    decreases n,
{
    if n >= 10 {
        lemma_decimal_digits(n / 10);
        assert forall|k: int| 0 <= k < decimal(n).len() implies #[trigger] is_digit(decimal(n)[k]) by {
            if k < decimal(n / 10).len() {
                assert(decimal(n)[k] == decimal(n / 10)[k]);
            }
        }
    }
}

proof fn lemma_seg_end_exact(t: Seq<char>, i: int, c: int)
    requires
        0 <= i <= c < t.len(),
        forall|k: int| i <= k < c ==> t[k] != ':' && t[k] != '\n',
        t[c] == ':',
    ensures
        seg_end(t, i) == c,
    decreases c - i,
{
    if i < c {
        lemma_seg_end_exact(t, i + 1, c);
    }
}

proof fn lemma_digits_start_exact(t: Seq<char>, a: int, j: int, c: int)
    requires
        a < j <= c <= t.len(),
        forall|k: int| j <= k < c ==> is_digit(t[k]),
        !is_digit(t[j - 1]),
    ensures
        digits_start(t, a, c) == j,
    decreases c - a,
{
    if c > j {
        lemma_digits_start_exact(t, a, j, c - 1);
    }
}

/// Upserting a Curse Maven line as `generate_dep` composes it (for a loader with a
/// dialect, a non-empty slug without `:` or line breaks, and a numeric mod id) a
/// second time changes nothing.
pub proof fn lemma_upsert_generated_cf_idempotent(
    t: Seq<char>,
    lowered: Seq<char>,
    slug: Seq<char>,
    modid: Seq<char>,
    file_id: nat,
)
    requires
        dialect_line(lowered, cf_coordinate(slug, modid, file_id)) is Some,
        slug.len() >= 1,
        forall|k: int| 0 <= k < slug.len() ==> #[trigger] slug[k] != ':' && slug[k] != '\n',
        modid.len() >= 1,
        forall|k: int| 0 <= k < modid.len() ==> #[trigger] is_digit(modid[k]),
    ensures
        ({
            let line = dialect_line(lowered, cf_coordinate(slug, modid, file_id))->0;
            let once = upserted(t, cf_found(t, modid), cf_new_id(line), line);
            upserted(once, cf_found(once, modid), cf_new_id(line), line) == once
        }),
{
    lemma_prefix_literal();
    reveal_strlit("-");
    reveal_strlit(":");
    let coord = cf_coordinate(slug, modid, file_id);
    lemma_dialect_parts(lowered, coord);
    lemma_decimal_digits(file_id);
    let pre = dialect_prefix(lowered);
    let suf = dialect_suffix(lowered);
    let dec = decimal(file_id);
    let line = pre + coord + suf;
    assert("-"@ =~= seq!['-']);
    assert(":"@ =~= seq![':']);
    assert(line =~= pre + "curse.maven:"@ + slug + seq!['-'] + modid + seq![':'] + dec + suf);
    let p = pre.len() as int;
    let a = p + 12;
    let c = a + slug.len() + 1 + modid.len();
    let ds = c + 1;
    let de = ds + dec.len();
    assert(line.len() == de + suf.len());
    assert forall|k: int| 0 <= k < line.len() implies #[trigger] line[k] != '\n' by {
        if k < p {
            assert(line[k] == pre[k]);
        } else if k < a {
            assert(line[k] == "curse.maven:"@[k - p]);
        } else if k < a + slug.len() {
            assert(line[k] == slug[k - a]);
        } else if k == a + slug.len() {
            assert(line[k] == '-');
        } else if k < c {
            assert(line[k] == modid[k - a - slug.len() - 1]);
            assert(is_digit(modid[k - a - slug.len() - 1]));
        } else if k == c {
            assert(line[k] == ':');
        } else if k < de {
            assert(line[k] == dec[k - ds]);
            assert(is_digit(dec[k - ds]));
        } else {
            assert(line[k] == suf[k - de]);
        }
    }
    assert(!line.contains('\n'));
    assert forall|k: int| a <= k < c implies line[k] != ':' && line[k] != '\n' by {
        if k < a + slug.len() {
            assert(line[k] == slug[k - a]);
        } else if k > a + slug.len() {
            assert(line[k] == modid[k - a - slug.len() - 1]);
            assert(is_digit(modid[k - a - slug.len() - 1]));
        } else {
            assert(line[k] == '-');
        }
    }
    assert(line[c] == ':');
    lemma_seg_end_exact(line, a, c);
    assert(line.subrange(p, a) =~= "curse.maven:"@);
    assert(line.subrange(c - modid.len() - 1, c) =~= seq!['-'] + modid);
    assert(line[ds] == dec[0]);
    assert(cf_ref_at(line, p, modid));
    assert forall|k: int| ds <= k < de implies is_digit(line[k]) by {
        assert(line[k] == dec[k - ds]);
    }
    assert(line[de] == suf[0]);
    lemma_digits_end_exact(line, ds, de);
    assert forall|q: int| 0 <= q < p implies !cf_ref_at(line, q, modid) && !cf_id_at(line, q) by {
        assert(line[q] == pre[q]);
        if matches_at(line, q, "curse.maven:"@) {
            assert(line.subrange(q, q + 12)[0] == line[q]);
        }
    }
    lemma_first_from_at(line, cf_ref_pred(line, modid), 0, p);
    assert forall|k: int| c - modid.len() <= k < c implies is_digit(line[k]) by {
        assert(line[k] == modid[k - (c - modid.len())]);
    }
    lemma_digits_start_exact(line, a, c - modid.len(), c);
    assert(cf_id_at(line, p));
    lemma_first_from_at(line, cf_id_pred(line), 0, p);
    assert(line.subrange(ds, de) =~= dec);
    assert(dialect_line(lowered, coord)->0 =~= line);
    lemma_upsert_cf_idempotent(t, modid, line);
}

/// No Modrinth reference or id starts inside a dialect prefix.
proof fn lemma_mr_none_in_prefix(pre: Seq<char>, rest: Seq<char>, slug: Seq<char>, q: int)
    requires
        0 <= q < pre.len(),
        forall|k: int| 0 <= k < pre.len() ==> #[trigger] pre[k] != 'c' && pre[k] != '\n' && pre[k]
            != 'm' || (pre[k] == 'm' && k + 1 < pre.len() && pre[k + 1] != 'a'),
    ensures
        !mr_ref_at(pre + rest, q, slug),
        !mr_id_at(pre + rest, q),
{
    reveal_strlit("maven.modrinth:");
    reveal_strlit(":");
    let line = pre + rest;
    let lit = "maven.modrinth:"@;
    assert(line[q] == pre[q]);
    if q + 1 < pre.len() {
        assert(line[q + 1] == pre[q + 1]);
    }
    if matches_at(line, q, lit) {
        assert(line.subrange(q, q + 15)[0] == line[q]);
        assert(line.subrange(q, q + 15)[1] == line[q + 1]);
    }
    if matches_at(line, q, mr_ref_prefix(slug)) {
        let n = mr_ref_prefix(slug).len();
        assert(line.subrange(q, q + n)[0] == line[q]);
        assert(line.subrange(q, q + n)[1] == line[q + 1]);
        assert(mr_ref_prefix(slug)[0] == 'm');
        assert(mr_ref_prefix(slug)[1] == 'a');
    }
}

proof fn lemma_mr_line_one_line(pre: Seq<char>, slug: Seq<char>, vid: Seq<char>, suf: Seq<char>)
    requires
        forall|k: int| 0 <= k < pre.len() ==> #[trigger] pre[k] != '\n',
        forall|k: int| 0 <= k < slug.len() ==> #[trigger] slug[k] != '\n',
        forall|k: int| 0 <= k < vid.len() ==> #[trigger] is_vid(vid[k]),
        forall|k: int| 0 <= k < suf.len() ==> #[trigger] suf[k] != '\n',
    ensures
        !(pre + "maven.modrinth:"@ + slug + seq![':'] + vid + suf).contains('\n'),
{
    reveal_strlit("maven.modrinth:");
    let lit = "maven.modrinth:"@;
    let line = pre + lit + slug + seq![':'] + vid + suf;
    let p = pre.len() as int;
    let a = p + 15;
    let c = a + slug.len();
    let ds = c + 1;
    let de = ds + vid.len();
    assert forall|k: int| 0 <= k < line.len() implies #[trigger] line[k] != '\n' by {
        if k < p {
            assert(line[k] == pre[k]);
        } else if k < a {
            assert(line[k] == lit[k - p]);
        } else if k < c {
            assert(line[k] == slug[k - a]);
        } else if k == c {
            assert(line[k] == ':');
        } else if k < de {
            assert(line[k] == vid[k - ds]);
            assert(is_vid(vid[k - ds]));
        } else {
            assert(line[k] == suf[k - de]);
        }
    }
}

#[verifier::rlimit(100)]
proof fn lemma_mr_line_found(pre: Seq<char>, slug: Seq<char>, vid: Seq<char>, suf: Seq<char>)
    requires
        forall|k: int| 0 <= k < pre.len() ==> #[trigger] pre[k] != 'c' && pre[k] != '\n' && pre[k]
            != 'm' || (pre[k] == 'm' && k + 1 < pre.len() && pre[k + 1] != 'a'),
        slug.len() >= 1,
        forall|k: int| 0 <= k < slug.len() ==> #[trigger] slug[k] != ':' && slug[k] != '\n',
        vid.len() >= 1,
        forall|k: int| 0 <= k < vid.len() ==> #[trigger] is_vid(vid[k]),
        suf.len() >= 1,
        suf[0] == '"',
    ensures
        ({
            let line = pre + "maven.modrinth:"@ + slug + seq![':'] + vid + suf;
            &&& mr_new_id(line) is Some
            &&& mr_found(line, slug) matches Some((q0, ds0, de0)) && line.subrange(ds0, de0)
                == mr_new_id(line)->0
        }),
{
    reveal_strlit("maven.modrinth:");
    reveal_strlit(":");
    let lit = "maven.modrinth:"@;
    let line = pre + lit + slug + seq![':'] + vid + suf;
    let p = pre.len() as int;
    let a = p + 15;
    let c = a + slug.len();
    let ds = c + 1;
    let de = ds + vid.len();
    assert forall|k: int| a <= k < c implies line[k] != ':' && line[k] != '\n' by {
        assert(line[k] == slug[k - a]);
    }
    assert(line[c] == ':');
    lemma_seg_end_exact(line, a, c);
    assert(line.subrange(p, ds) =~= mr_ref_prefix(slug));
    assert(line[ds] == vid[0]);
    assert(mr_ref_at(line, p, slug));
    assert(line.subrange(p, a) =~= lit);
    assert(mr_id_at(line, p));
    assert forall|k: int| ds <= k < de implies is_vid(line[k]) by {
        assert(line[k] == vid[k - ds]);
    }
    assert(line[de] == suf[0]);
    lemma_vid_end_exact(line, ds, de);
    assert(line =~= pre + (lit + slug + seq![':'] + vid + suf));
    assert forall|q: int| 0 <= q < p implies !#[trigger] mr_ref_pred(line, slug)(q) by {
        lemma_mr_none_in_prefix(pre, lit + slug + seq![':'] + vid + suf, slug, q);
    }
    assert forall|q: int| 0 <= q < p implies !#[trigger] mr_id_pred(line)(q) by {
        lemma_mr_none_in_prefix(pre, lit + slug + seq![':'] + vid + suf, slug, q);
    }
    lemma_first_from_at(line, mr_ref_pred(line, slug), 0, p);
    lemma_first_from_at(line, mr_id_pred(line), 0, p);
    assert(line.subrange(ds, de) =~= vid);
}

/// Upserting a Modrinth line as `generate_mr_dep` composes it (for a loader with a
/// dialect, a non-empty slug without `:` or line breaks, and a non-empty version id of
/// version-id characters) a second time changes nothing.
pub proof fn lemma_upsert_generated_mr_idempotent(
    t: Seq<char>,
    lowered: Seq<char>,
    slug: Seq<char>,
    version_id: Seq<char>,
)
    requires
        dialect_line(lowered, mr_coordinate(slug, version_id)) is Some,
        slug.len() >= 1,
        forall|k: int| 0 <= k < slug.len() ==> #[trigger] slug[k] != ':' && slug[k] != '\n',
        version_id.len() >= 1,
        forall|k: int| 0 <= k < version_id.len() ==> #[trigger] is_vid(version_id[k]),
    ensures
        ({
            let line = dialect_line(lowered, mr_coordinate(slug, version_id))->0;
            let once = upserted(t, mr_found(t, slug), mr_new_id(line), line);
            upserted(once, mr_found(once, slug), mr_new_id(line), line) == once
        }),
{
    reveal_strlit(":");
    let coord = mr_coordinate(slug, version_id);
    lemma_dialect_parts(lowered, coord);
    let pre = dialect_prefix(lowered);
    let suf = dialect_suffix(lowered);
    assert(":"@ =~= seq![':']);
    let line = pre + "maven.modrinth:"@ + slug + seq![':'] + version_id + suf;
    assert(dialect_line(lowered, coord)->0 =~= line);
    lemma_mr_line_one_line(pre, slug, version_id, suf);
    lemma_mr_line_found(pre, slug, version_id, suf);
    assert(!slug.contains('\n')) by {
        if slug.contains('\n') {
            let k = choose|k: int| 0 <= k < slug.len() && slug[k] == '\n';
            assert(slug[k] != '\n');
        }
    }
    lemma_upsert_mr_idempotent(t, slug, dialect_line(lowered, mr_coordinate(slug, version_id))->0);
}

} // verus!

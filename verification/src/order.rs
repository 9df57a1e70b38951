//! Lexicographic order on character sequences and insertion into sorted,
//! duplicate-free lists. Author names and publication years are kept in
//! such lists.

use vstd::prelude::*;

verus! {

/// Strict lexicographic order by code point, the order `String` sorts in.
pub open spec fn lex_lt(a: Seq<char>, b: Seq<char>) -> bool
    decreases a.len(),
{
    if a.len() == 0 {
        b.len() > 0
    } else if b.len() == 0 {
        false
    } else if a[0] != b[0] {
        (a[0] as u32) < (b[0] as u32)
    } else {
        lex_lt(a.skip(1), b.skip(1))
    }
}

/// Exactly one of `lex_lt(a, b)`, `a == b`, `lex_lt(b, a)` holds.
pub proof fn lemma_lex_trichotomy(a: Seq<char>, b: Seq<char>)
    ensures
        lex_lt(a, b) || lex_lt(b, a) || a == b,
        lex_lt(a, b) ==> !lex_lt(b, a) && a != b,
        lex_lt(b, a) ==> !lex_lt(a, b) && a != b,
    decreases a.len(),
{
    if a.len() > 0 && b.len() > 0 {
        if a[0] == b[0] {
            lemma_lex_trichotomy(a.skip(1), b.skip(1));
            if a.skip(1) == b.skip(1) {
                assert(a.len() == b.len());
                assert forall|i: int| 0 <= i < a.len() implies a[i] == b[i] by {
                    if i > 0 {
                        assert(a.skip(1)[i - 1] == a[i]);
                        assert(b.skip(1)[i - 1] == b[i]);
                    }
                }
                assert(a =~= b);
            }
            if a == b {
                assert(a.skip(1) =~= b.skip(1));
            }
        } else {
            if a[0] as u32 == b[0] as u32 {
                vstd::utf8::char_u32_cast(a[0], a[0] as u32);
                vstd::utf8::char_u32_cast(b[0], b[0] as u32);
            }
        }
    }
}

/// The order is transitive.
pub proof fn lemma_lex_transitive(a: Seq<char>, b: Seq<char>, c: Seq<char>)
    requires
        lex_lt(a, b),
        lex_lt(b, c),
    ensures
        lex_lt(a, c),
    decreases a.len(),
{
    if a.len() > 0 && b.len() > 0 && c.len() > 0 {
        if a[0] == b[0] && b[0] == c[0] {
            lemma_lex_transitive(a.skip(1), b.skip(1), c.skip(1));
        }
    }
}

/// Three-way comparison of two character vectors: negative, zero or
/// positive as `a` sorts before, equal to, or after `b`.
pub fn chars_cmp(a: &Vec<char>, b: &Vec<char>) -> (r: i32)
    ensures
        r < 0 <==> lex_lt(a@, b@),
        r == 0 <==> a@ == b@,
        r > 0 <==> lex_lt(b@, a@),
{
    proof {
        lemma_lex_trichotomy(a@, b@);
        assert(a@.skip(0) =~= a@);
        assert(b@.skip(0) =~= b@);
        assert(a@.subrange(0, 0) =~= b@.subrange(0, 0));
    }
    let mut i: usize = 0;
    while i < a.len() && i < b.len()
        invariant
            i <= a@.len(),
            i <= b@.len(),
            lex_lt(a@, b@) == lex_lt(a@.skip(i as int), b@.skip(i as int)),
            lex_lt(b@, a@) == lex_lt(b@.skip(i as int), a@.skip(i as int)),
            (a@ == b@) == (a@.skip(i as int) == b@.skip(i as int)),
            a@.subrange(0, i as int) == b@.subrange(0, i as int),
        decreases a@.len() - i,
    {
        proof {
            assert(a@.skip(i as int)[0] == a@[i as int]);
            assert(b@.skip(i as int)[0] == b@[i as int]);
            lemma_lex_trichotomy(a@, b@);
        }
        if a[i] != b[i] {
            proof {
                assert(a@.skip(i as int) != b@.skip(i as int));
                if a@ == b@ {
                    assert(a@.skip(i as int) =~= b@.skip(i as int));
                }
            }
            if (a[i] as u32) < (b[i] as u32) {
                return -1;
            } else {
                return 1;
            }
        }
        proof {
            assert(a@.skip(i as int).skip(1) =~= a@.skip(i as int + 1));
            assert(b@.skip(i as int).skip(1) =~= b@.skip(i as int + 1));
            if a@.skip(i as int + 1) == b@.skip(i as int + 1) {
                assert(a@.skip(i as int) =~= b@.skip(i as int));
            }
            if a@.skip(i as int) == b@.skip(i as int) {
                assert(a@.skip(i as int).skip(1) == b@.skip(i as int).skip(1));
            }
            assert(a@.subrange(0, i as int + 1) =~= b@.subrange(0, i as int + 1));
        }
        i += 1;
    }
    proof {
        if a@.len() == b@.len() {
            assert(a@ =~= b@) by {
                assert(a@.skip(i as int).len() == 0 && b@.skip(i as int).len() == 0);
                assert(a@ =~= a@.subrange(0, i as int) && b@ =~= b@.subrange(0, i as int));
            }
        }
    }
    if a.len() < b.len() {
        -1
    } else if a.len() > b.len() {
        1
    } else {
        0
    }
}

/// The sequence views of a list of character vectors.
pub open spec fn views_of(v: Seq<Vec<char>>) -> Seq<Seq<char>> {
    Seq::new(v.len(), |i: int| v[i]@)
}

/// Whether a list of names is strictly sorted (and so duplicate-free).
pub open spec fn strictly_sorted(v: Seq<Seq<char>>) -> bool {
    forall|i: int, j: int| 0 <= i < j < v.len() ==> lex_lt(#[trigger] v[i], #[trigger] v[j])
}

/// Whether `x` occurs in `v`.
pub open spec fn seq_contains(v: Seq<Seq<char>>, x: Seq<char>) -> bool {
    exists|i: int| 0 <= i < v.len() && v[i] == x
}

/// `v` with `x` inserted at its ordered position, or `v` itself if `x` is
/// already present.
pub open spec fn sorted_insert(v: Seq<Seq<char>>, x: Seq<char>) -> Seq<Seq<char>>
    decreases v.len(),
{
    if v.len() == 0 {
        seq![x]
    } else if lex_lt(x, v[0]) {
        seq![x] + v
    } else if x == v[0] {
        v
    } else {
        seq![v[0]] + sorted_insert(v.skip(1), x)
    }
}

/// Insertion keeps a sorted list sorted and adds exactly the new name.
pub proof fn lemma_sorted_insert(v: Seq<Seq<char>>, x: Seq<char>)
    requires
        strictly_sorted(v),
    ensures
        strictly_sorted(sorted_insert(v, x)),
        forall|y: Seq<char>|
            seq_contains(sorted_insert(v, x), y) <==> (seq_contains(v, y) || y == x),
    decreases v.len(),
{
    let r = sorted_insert(v, x);
    if v.len() == 0 {
        assert forall|y: Seq<char>| seq_contains(r, y) implies (seq_contains(v, y) || y == x) by {
            let i = choose|i: int| 0 <= i < r.len() && r[i] == y;
            assert(r[i] == x);
        }
        assert(r[0] == x);
    } else if lex_lt(x, v[0]) {
        assert forall|i: int, j: int| 0 <= i < j < r.len() implies lex_lt(r[i], r[j]) by {
            if i == 0 {
                if j > 1 {
                    lemma_lex_transitive(x, v[0], v[j - 1]);
                }
            }
        }
        assert forall|y: Seq<char>| seq_contains(v, y) || y == x implies seq_contains(r, y) by {
            if y == x {
                assert(r[0] == y);
            } else {
                let i = choose|i: int| 0 <= i < v.len() && v[i] == y;
                assert(r[i + 1] == y);
            }
        }
        assert forall|y: Seq<char>| seq_contains(r, y) implies (seq_contains(v, y) || y == x) by {
            let i = choose|i: int| 0 <= i < r.len() && r[i] == y;
            if i > 0 {
                assert(v[i - 1] == y);
            }
        }
    } else if x == v[0] {
        assert(r[0] == x);
    } else {
        lemma_lex_trichotomy(x, v[0]);
        let tail = v.skip(1);
        assert(strictly_sorted(tail)) by {
            assert(forall|i: int, j: int|
                0 <= i < j < tail.len() ==> tail[i] == v[i + 1] && tail[j] == v[j + 1]);
        }
        lemma_sorted_insert(tail, x);
        let rt = sorted_insert(tail, x);
        assert forall|i: int, j: int| 0 <= i < j < r.len() implies lex_lt(r[i], r[j]) by {
            if i == 0 {
                assert(r[j] == rt[j - 1]);
                assert(seq_contains(rt, rt[j - 1])) by {
                    assert(0 <= j - 1 < rt.len() && rt[j - 1] == rt[j - 1]);
                }
                assert(seq_contains(tail, rt[j - 1]) || rt[j - 1] == x);
                if rt[j - 1] == x {
                    assert(lex_lt(v[0], x));
                } else {
                    let k = choose|k: int| 0 <= k < tail.len() && tail[k] == rt[j - 1];
                    assert(v[k + 1] == tail[k]);
                    assert(lex_lt(v[0], v[k + 1]));
                }
            } else {
                assert(r[i] == rt[i - 1] && r[j] == rt[j - 1]);
            }
        }
        assert forall|y: Seq<char>| seq_contains(r, y) implies (seq_contains(v, y) || y == x) by {
            let i = choose|i: int| 0 <= i < r.len() && r[i] == y;
            if i == 0 {
                assert(v[0] == y);
            } else {
                assert(rt[i - 1] == y);
                assert(seq_contains(rt, y));
                if seq_contains(tail, y) {
                    let k = choose|k: int| 0 <= k < tail.len() && tail[k] == y;
                    assert(v[k + 1] == y);
                }
            }
        }
        assert forall|y: Seq<char>| seq_contains(v, y) || y == x implies seq_contains(r, y) by {
            if y == x || seq_contains(tail, y) {
                if seq_contains(tail, y) {
                    let k = choose|k: int| 0 <= k < tail.len() && tail[k] == y;
                    assert(seq_contains(rt, y));
                } else {
                    assert(seq_contains(rt, y));
                }
                let k = choose|k: int| 0 <= k < rt.len() && rt[k] == y;
                assert(r[k + 1] == y);
            } else {
                let i = choose|i: int| 0 <= i < v.len() && v[i] == y;
                if i == 0 {
                    assert(r[0] == y);
                } else {
                    assert(seq_contains(tail, y)) by {
                        assert(tail[i - 1] == y);
                    }
                }
            }
        }
    }
}

/// Inserts `name` into a sorted list of names, keeping it sorted and
/// duplicate-free.
pub fn insert_name(list: &mut Vec<Vec<char>>, name: Vec<char>)
    ensures
        views_of(final(list)@) == sorted_insert(views_of(old(list)@), name@),
{
    let ghost vs = views_of(list@);
    let mut i: usize = 0;
    proof {
        assert(vs.skip(0) =~= vs);
        assert(vs.take(0) =~= Seq::<Seq<char>>::empty());
        assert(vs.take(0) + sorted_insert(vs.skip(0), name@) =~= sorted_insert(vs, name@));
    }
    while i < list.len()
        invariant
            i <= list@.len(),
            vs == views_of(list@),
            vs == views_of(old(list)@),
            vs.len() == list@.len(),
            sorted_insert(vs, name@) == vs.take(i as int) + sorted_insert(
                vs.skip(i as int),
                name@,
            ),
            forall|j: int| 0 <= j < i ==> lex_lt(#[trigger] vs[j], name@),
        decreases list@.len() - i,
    {
        proof {
            assert(vs.skip(i as int)[0] == vs[i as int]);
            assert(vs[i as int] == list@[i as int]@);
        }
        let c = chars_cmp(&list[i], &name);
        proof {
            lemma_lex_trichotomy(name@, vs[i as int]);
        }
        if c == 0 {
            proof {
                assert(sorted_insert(vs.skip(i as int), name@) =~= vs.skip(i as int));
                assert(vs.take(i as int) + vs.skip(i as int) =~= vs);
                assert(views_of(list@) =~= vs);
            }
            return ;
        } else if c > 0 {
            proof {
                lemma_lex_trichotomy(name@, vs[i as int]);
                assert(sorted_insert(vs.skip(i as int), name@) =~= seq![name@] + vs.skip(i as int));
            }
            list.insert(i, name);
            proof {
                assert(views_of(list@) =~= vs.take(i as int) + (seq![name@] + vs.skip(i as int)));
            }
            return ;
        }
        proof {
            lemma_lex_trichotomy(name@, vs[i as int]);
            assert(vs.skip(i as int).skip(1) =~= vs.skip(i as int + 1));
            assert(sorted_insert(vs.skip(i as int), name@) =~= seq![vs[i as int]] + sorted_insert(
                vs.skip(i as int + 1),
                name@,
            ));
            assert(vs.take(i as int) + (seq![vs[i as int]] + sorted_insert(
                vs.skip(i as int + 1),
                name@,
            )) =~= vs.take(i as int + 1) + sorted_insert(vs.skip(i as int + 1), name@));
        }
        i += 1;
    }
    proof {
        assert(vs.skip(vs.len() as int).len() == 0);
        assert(sorted_insert(vs.skip(vs.len() as int), name@) =~= seq![name@]);
    }
    list.push(name);
    proof {
        assert(views_of(list@) =~= vs.take(vs.len() as int) + seq![name@]);
    }
}

/// `v` with the year `y` inserted at its ordered position, or `v` itself if
/// `y` is already present.
pub open spec fn sorted_insert_u16(v: Seq<u16>, y: u16) -> Seq<u16>
    decreases v.len(),
{
    if v.len() == 0 {
        seq![y]
    } else if y < v[0] {
        seq![y] + v
    } else if y == v[0] {
        v
    } else {
        seq![v[0]] + sorted_insert_u16(v.skip(1), y)
    }
}

/// Whether a list of years is strictly increasing (and so duplicate-free).
pub open spec fn sorted_u16(v: Seq<u16>) -> bool {
    forall|i: int, j: int| 0 <= i < j < v.len() ==> v[i] < v[j]
}

/// Insertion keeps a sorted list of years sorted and adds exactly the new
/// year.
pub proof fn lemma_sorted_insert_u16(v: Seq<u16>, y: u16)
    requires
        sorted_u16(v),
    ensures
        sorted_u16(sorted_insert_u16(v, y)),
        forall|x: u16|
            #[trigger] sorted_insert_u16(v, y).contains(x) <==> (v.contains(x) || x == y),
    decreases v.len(),
{
    let r = sorted_insert_u16(v, y);
    if v.len() == 0 {
        assert(r[0] == y);
        assert forall|x: u16| r.contains(x) implies (v.contains(x) || x == y) by {
            let i = choose|i: int| 0 <= i < r.len() && r[i] == x;
        }
    } else if y < v[0] {
        assert forall|i: int, j: int| 0 <= i < j < r.len() implies r[i] < r[j] by {
            if i > 0 {
                assert(r[i] == v[i - 1] && r[j] == v[j - 1]);
            } else if j > 1 {
                assert(r[j] == v[j - 1]);
            }
        }
        assert forall|x: u16| r.contains(x) implies (v.contains(x) || x == y) by {
            let i = choose|i: int| 0 <= i < r.len() && r[i] == x;
            if i > 0 {
                assert(v[i - 1] == x);
            }
        }
        assert forall|x: u16| v.contains(x) || x == y implies r.contains(x) by {
            if x == y {
                assert(r[0] == x);
            } else {
                let i = choose|i: int| 0 <= i < v.len() && v[i] == x;
                assert(r[i + 1] == x);
            }
        }
    } else if y == v[0] {
        assert forall|x: u16| v.contains(x) || x == y implies r.contains(x) by {
            if x == y {
                assert(r[0] == x);
            }
        }
    } else {
        let tail = v.skip(1);
        assert(sorted_u16(tail)) by {
            assert(forall|i: int, j: int|
                0 <= i < j < tail.len() ==> tail[i] == v[i + 1] && tail[j] == v[j + 1]);
        }
        lemma_sorted_insert_u16(tail, y);
        let rt = sorted_insert_u16(tail, y);
        assert forall|i: int, j: int| 0 <= i < j < r.len() implies r[i] < r[j] by {
            if i == 0 {
                assert(r[j] == rt[j - 1]);
                assert(rt.contains(rt[j - 1])) by {
                    assert(0 <= j - 1 < rt.len() && rt[j - 1] == rt[j - 1]);
                }
                assert(tail.contains(rt[j - 1]) || rt[j - 1] == y);
                if rt[j - 1] != y {
                    let k = choose|k: int| 0 <= k < tail.len() && tail[k] == rt[j - 1];
                    assert(v[k + 1] == tail[k]);
                }
            } else {
                assert(r[i] == rt[i - 1] && r[j] == rt[j - 1]);
            }
        }
        assert forall|x: u16| r.contains(x) implies (v.contains(x) || x == y) by {
            let i = choose|i: int| 0 <= i < r.len() && r[i] == x;
            if i == 0 {
                assert(v[0] == x);
            } else {
                assert(rt[i - 1] == x);
                assert(rt.contains(x));
                if tail.contains(x) {
                    let k = choose|k: int| 0 <= k < tail.len() && tail[k] == x;
                    assert(v[k + 1] == x);
                }
            }
        }
        assert forall|x: u16| v.contains(x) || x == y implies r.contains(x) by {
            if x == y || tail.contains(x) {
                assert(rt.contains(x));
                let k = choose|k: int| 0 <= k < rt.len() && rt[k] == x;
                assert(r[k + 1] == x);
            } else {
                let i = choose|i: int| 0 <= i < v.len() && v[i] == x;
                if i == 0 {
                    assert(r[0] == x);
                } else {
                    assert(tail[i - 1] == x);
                    assert(tail.contains(x));
                }
            }
        }
    }
}

/// Inserts a year into a sorted list of years, keeping it sorted and
/// duplicate-free.
pub fn insert_year(list: &mut Vec<u16>, y: u16)
    ensures
        final(list)@ == sorted_insert_u16(old(list)@, y),
{
    let ghost vs = list@;
    let mut i: usize = 0;
    proof {
        assert(vs.skip(0) =~= vs);
        assert(vs.take(0) + sorted_insert_u16(vs.skip(0), y) =~= sorted_insert_u16(vs, y));
    }
    while i < list.len()
        invariant
            i <= vs.len(),
            vs == list@,
            vs == old(list)@,
            sorted_insert_u16(vs, y) == vs.take(i as int) + sorted_insert_u16(
                vs.skip(i as int),
                y,
            ),
        decreases vs.len() - i,
    {
        proof {
            assert(vs.skip(i as int)[0] == vs[i as int]);
        }
        let e = list[i];
        if e == y {
            proof {
                assert(sorted_insert_u16(vs.skip(i as int), y) =~= vs.skip(i as int));
                assert(vs.take(i as int) + vs.skip(i as int) =~= vs);
            }
            return ;
        } else if y < e {
            proof {
                assert(sorted_insert_u16(vs.skip(i as int), y) =~= seq![y] + vs.skip(i as int));
            }
            list.insert(i, y);
            proof {
                assert(list@ =~= vs.take(i as int) + (seq![y] + vs.skip(i as int)));
            }
            return ;
        }
        proof {
            assert(vs.skip(i as int).skip(1) =~= vs.skip(i as int + 1));
            assert(sorted_insert_u16(vs.skip(i as int), y) =~= seq![vs[i as int]]
                + sorted_insert_u16(vs.skip(i as int + 1), y));
            assert(vs.take(i as int) + (seq![vs[i as int]] + sorted_insert_u16(
                vs.skip(i as int + 1),
                y,
            )) =~= vs.take(i as int + 1) + sorted_insert_u16(vs.skip(i as int + 1), y));
        }
        i += 1;
    }
    proof {
        assert(vs.skip(vs.len() as int).len() == 0);
        assert(sorted_insert_u16(vs.skip(vs.len() as int), y) =~= seq![y]);
    }
    list.push(y);
    proof {
        assert(list@ =~= vs.take(vs.len() as int) + seq![y]);
    }
}

} // verus!

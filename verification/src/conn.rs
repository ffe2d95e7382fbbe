//! Connectivity of coordinate sets under 4-adjacency.
//!
//! A block of the program grid must be one 4-connected region: every
//! coordinate in it reaches every other through a path of same-block
//! coordinates, stepping one codel size on one axis at a time. This module
//! defines that notion over coordinate sequences and proves the closure
//! lemmas the segmenter needs: singletons are connected, and gluing two
//! connected sets through an adjacent pair keeps them connected.

use vstd::prelude::*;

verus! {

use crate::blocks::Coord;

/// Two sampled coordinates are 4-adjacent: they differ by exactly one
/// codel-size step on exactly one axis.
pub open spec fn adjacent(a: Coord, b: Coord, step: int) -> bool {
    ||| a.1 == b.1 && (a.0 as int + step == b.0 as int || b.0 as int + step == a.0 as int)
    ||| a.0 == b.0 && (a.1 as int + step == b.1 as int || b.1 as int + step == a.1 as int)
}

/// `p` is a walk through the coordinate set `s`: nonempty, every entry a
/// member of `s`, and consecutive entries 4-adjacent.
pub open spec fn is_path(s: Seq<Coord>, step: int, p: Seq<Coord>) -> bool {
    &&& p.len() >= 1
    &&& forall|i: int| 0 <= i < p.len() ==> s.contains(#[trigger] p[i])
    &&& forall|i: int| 0 <= i < p.len() - 1 ==> adjacent(#[trigger] p[i], p[i + 1], step)
}

/// `b` is reachable from `a` inside `s`.
pub open spec fn connected_pair(s: Seq<Coord>, step: int, a: Coord, b: Coord) -> bool {
    exists|p: Seq<Coord>| is_path(s, step, p) && p.first() == a && p.last() == b
}

/// Every member of `s` reaches every other member inside `s`.
pub open spec fn connected(s: Seq<Coord>, step: int) -> bool {
    forall|a: Coord, b: Coord|
        s.contains(a) && s.contains(b) ==> connected_pair(s, step, a, b)
}

/// A walk through `s` is also a walk through any sequence that contains
/// everything `s` contains.
pub proof fn lemma_path_in_superset(s: Seq<Coord>, t: Seq<Coord>, step: int, p: Seq<Coord>)
    requires
        is_path(s, step, p),
        forall|c: Coord| s.contains(c) ==> t.contains(c),
    ensures
        is_path(t, step, p),
{
}

/// Two walks whose junction entries are adjacent join into one walk.
pub proof fn lemma_path_concat(s: Seq<Coord>, step: int, p1: Seq<Coord>, p2: Seq<Coord>)
    requires
        is_path(s, step, p1),
        is_path(s, step, p2),
        adjacent(p1.last(), p2.first(), step),
    ensures
        is_path(s, step, p1 + p2),
        (p1 + p2).first() == p1.first(),
        (p1 + p2).last() == p2.last(),
{
    let p = p1 + p2;
    assert forall|i: int| 0 <= i < p.len() - 1 implies adjacent(#[trigger] p[i], p[i + 1], step) by {
        if i < p1.len() - 1 {
            assert(p[i] == p1[i]);
            assert(p[i + 1] == p1[i + 1]);
        } else if i == p1.len() - 1 {
            assert(p[i] == p1.last());
            assert(p[i + 1] == p2.first());
        } else {
            assert(p[i] == p2[i - p1.len()]);
            assert(p[i + 1] == p2[i + 1 - p1.len()]);
        }
    }
    assert forall|i: int| 0 <= i < p.len() implies s.contains(#[trigger] p[i]) by {
        if i < p1.len() {
            assert(p[i] == p1[i]);
        } else {
            assert(p[i] == p2[i - p1.len()]);
        }
    }
}

/// A one-coordinate set is connected.
pub proof fn lemma_connected_singleton(c: Coord, step: int)
    ensures
        connected(seq![c], step),
{
    let s = seq![c];
    assert forall|a: Coord, b: Coord| s.contains(a) && s.contains(b)
        implies connected_pair(s, step, a, b) by {
        let p = seq![a];
        assert(p.first() == a && p.last() == a);
        assert(is_path(s, step, p));
        assert(a == c && b == c);
    }
}

/// Membership in a concatenation splits into membership in either part.
pub proof fn lemma_concat_contains(u: Seq<Coord>, v: Seq<Coord>, c: Coord)
    ensures
        (u + v).contains(c) <==> u.contains(c) || v.contains(c),
{
    if u.contains(c) {
        let i = choose|i: int| 0 <= i < u.len() && u[i] == c;
        assert((u + v)[i] == c);
    }
    if v.contains(c) {
        let i = choose|i: int| 0 <= i < v.len() && v[i] == c;
        assert((u + v)[i + u.len()] == c);
    }
    if (u + v).contains(c) {
        let i = choose|i: int| 0 <= i < (u + v).len() && (u + v)[i] == c;
        if i < u.len() {
            assert(u[i] == c);
        } else {
            assert(v[i - u.len()] == c);
        }
    }
}

/// Gluing two connected sets through one adjacent pair (`c` in the first,
/// `y` in the second) yields a connected union.
pub proof fn lemma_connected_union(u: Seq<Coord>, v: Seq<Coord>, step: int, c: Coord, y: Coord)
    requires
        connected(u, step),
        connected(v, step),
        u.contains(c),
        v.contains(y),
        adjacent(c, y, step),
    ensures
        connected(u + v, step),
{
    let w = u + v;
    assert forall|a: Coord, b: Coord| w.contains(a) && w.contains(b)
        implies connected_pair(w, step, a, b) by {
        lemma_concat_contains(u, v, a);
        lemma_concat_contains(u, v, b);
        assert forall|z: Coord| u.contains(z) || v.contains(z) implies w.contains(z) by {
            lemma_concat_contains(u, v, z);
        }
        if u.contains(a) && u.contains(b) {
            assert(connected_pair(u, step, a, b));
            let p = choose|p: Seq<Coord>|
                is_path(u, step, p) && p.first() == a && p.last() == b;
            lemma_path_in_superset(u, w, step, p);
            assert(is_path(w, step, p) && p.first() == a && p.last() == b);
        } else if v.contains(a) && v.contains(b) {
            assert(connected_pair(v, step, a, b));
            let p = choose|p: Seq<Coord>|
                is_path(v, step, p) && p.first() == a && p.last() == b;
            lemma_path_in_superset(v, w, step, p);
            assert(is_path(w, step, p) && p.first() == a && p.last() == b);
        } else if u.contains(a) && v.contains(b) {
            assert(connected_pair(u, step, a, c));
            assert(connected_pair(v, step, y, b));
            let p1 = choose|p: Seq<Coord>|
                is_path(u, step, p) && p.first() == a && p.last() == c;
            let p2 = choose|p: Seq<Coord>|
                is_path(v, step, p) && p.first() == y && p.last() == b;
            lemma_path_in_superset(u, w, step, p1);
            lemma_path_in_superset(v, w, step, p2);
            lemma_path_concat(w, step, p1, p2);
            let p = p1 + p2;
            assert(is_path(w, step, p) && p.first() == a && p.last() == b);
        } else {
            assert(v.contains(a) && u.contains(b));
            assert(connected_pair(v, step, a, y));
            assert(connected_pair(u, step, c, b));
            let p1 = choose|p: Seq<Coord>|
                is_path(v, step, p) && p.first() == a && p.last() == y;
            let p2 = choose|p: Seq<Coord>|
                is_path(u, step, p) && p.first() == c && p.last() == b;
            lemma_path_in_superset(v, w, step, p1);
            lemma_path_in_superset(u, w, step, p2);
            assert(adjacent(p1.last(), p2.first(), step));
            lemma_path_concat(w, step, p1, p2);
            let p = p1 + p2;
            assert(is_path(w, step, p) && p.first() == a && p.last() == b);
        }
    }
}

/// A set whose members all lie in a `width`-by-`height` box, listed without
/// repetition, has at most `width * height` members.
pub proof fn lemma_coords_len_le_area(s: Seq<Coord>, width: int, height: int)
    requires
        0 <= width,
        0 <= height,
        s.no_duplicates(),
        forall|i: int| 0 <= i < s.len()
            ==> 0 <= (#[trigger] s[i]).0 < width && 0 <= s[i].1 < height,
    ensures
        s.len() <= width * height,
{
    let keys = s.map_values(|c: Coord| c.1 as int * width + c.0 as int);
    assert forall|i: int, j: int| 0 <= i < keys.len() && 0 <= j < keys.len() && i != j
        implies keys[i] != keys[j] by {
        let a = s[i];
        let b = s[j];
        assert(a != b);
        assert((a.1 as int) * width + (a.0 as int) != (b.1 as int) * width + (b.0 as int)) by (nonlinear_arith)
            requires
                0 <= a.0 < width,
                0 <= b.0 < width,
                !(a.0 == b.0 && a.1 == b.1),
        {}
    }
    assert(keys.no_duplicates());
    assert forall|i: int| 0 <= i < keys.len() implies 0 <= #[trigger] keys[i] < width * height by {
        let a = s[i];
        assert(0 <= (a.1 as int) * width + (a.0 as int)
            && (a.1 as int) * width + (a.0 as int) < width * height) by (nonlinear_arith)
            requires
                0 <= a.0 < width,
                0 <= a.1 < height,
        {}
    }
    keys.unique_seq_to_set();
    assert(0 <= width * height) by (nonlinear_arith)
        requires
            0 <= width,
            0 <= height,
    {}
    let range = vstd::set_lib::set_int_range(0, width * height);
    vstd::set_lib::lemma_int_range(0, width * height);
    assert(keys.to_set().subset_of(range));
    vstd::set_lib::lemma_len_subset(keys.to_set(), range);
}

} // verus!

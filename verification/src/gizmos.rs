//! The triangles of the gizmos: the arrow, a cone for the head on a
//! cylinder for the tail, both drawn around the arrow with the same number
//! of segments; and the toroid, a tube of segments swept round in sections.
use vstd::prelude::*;

verus! {

/// The sides of the cone, one triangle per segment from the tip (vertex 0)
/// to two neighbouring vertices of the rim (vertices `1..=s`), for the first
/// `n` segments.
pub open spec fn cone_sides(s: u32, n: nat) -> Seq<u32>
    decreases n,
{
    if n == 0 {
        Seq::empty()
    } else {
        cone_sides(s, (n - 1) as nat) + seq![0u32, n as u32, (n % (s as nat) + 1) as u32]
    }
}

/// The base of the cone, a fan of triangles from rim vertex 1, for the
/// first `n` of its triangles.
pub open spec fn cone_base(s: u32, n: nat) -> Seq<u32>
    decreases n,
{
    if n == 0 {
        Seq::empty()
    } else {
        cone_base(s, (n - 1) as nat) + seq![((n + 1) % (s as nat) + 1) as u32, (n + 1) as u32, 1u32]
    }
}

/// The sides of the tail, two triangles per segment between its two rings
/// of vertices, which start at `start` and `start + s`, for the first `n`
/// segments.
pub open spec fn tail_sides(s: u32, start: nat, n: nat) -> Seq<u32>
    decreases n,
{
    if n == 0 {
        Seq::empty()
    } else {
        let i = (n - 1) as nat;
        let next = n % (s as nat);
        tail_sides(s, start, i) + seq![
            (start + i) as u32,
            (start + next) as u32,
            (start + i + s) as u32,
            (start + next) as u32,
            (start + next + s) as u32,
            (start + i + s) as u32,
        ]
    }
}

/// The end of the tail, a fan of triangles from the first vertex of its
/// first ring, for the first `n` of its triangles.
pub open spec fn tail_end(s: u32, start: nat, n: nat) -> Seq<u32>
    decreases n,
{
    if n == 0 {
        Seq::empty()
    } else {
        tail_end(s, start, (n - 1) as nat) + seq![(start + (n + 1) % (s as nat)) as u32, (start + n) as u32, start as u32]
    }
}

/// The index buffer of an arrow drawn with `s` segments: the tip is vertex
/// 0, the rim of the head follows, then the two rings of the tail.
pub open spec fn arrow_index_buffer(s: u32) -> Seq<u32> {
    let start = s + 1;
    cone_sides(s, s as nat) + cone_base(s, (s - 1) as nat) + tail_sides(s, start as nat, s as nat)
        + tail_end(s, start as nat, (s - 1) as nat)
}

/// The `i`-th triangle of the side of the cone, the first block of the
/// buffer, fans from the tip (vertex 0) to rim vertex `i + 1` and its
/// neighbour round the rim.
pub open spec fn cone_side_at(r: Seq<u32>, s: int, i: int) -> bool {
    &&& r[3 * i] == 0
    &&& r[3 * i + 1] == i + 1
    &&& r[3 * i + 2] == (i + 1) % s + 1
}

/// The `i`-th triangle of the base of the cone, after the side, fans from
/// rim vertex 1 to rim vertices `i + 2` and its neighbour round the rim.
pub open spec fn cone_base_at(r: Seq<u32>, s: int, i: int) -> bool {
    let q = 3 * s + 3 * i;
    &&& r[q] == (i + 2) % s + 1
    &&& r[q + 1] == i + 2
    &&& r[q + 2] == 1
}

/// The `i`-th quad of the side of the tail, after the cone, joins vertex
/// `i` of the first ring of the tail (which starts at `s + 1`) and its
/// neighbour round the ring to the same two vertices of the second ring,
/// `s` further on.
pub open spec fn tail_side_at(r: Seq<u32>, s: int, i: int) -> bool {
    let q = 6 * s - 3 + 6 * i;
    let st = s + 1;
    let next = (i + 1) % s;
    &&& r[q] == st + i
    &&& r[q + 1] == st + next
    &&& r[q + 2] == st + i + s
    &&& r[q + 3] == st + next
    &&& r[q + 4] == st + next + s
    &&& r[q + 5] == st + i + s
}

/// The `i`-th triangle of the end of the tail, the last block, fans from
/// the first vertex of the first ring of the tail to its vertices `i + 1`
/// and the neighbour after it.
pub open spec fn tail_end_at(r: Seq<u32>, s: int, i: int) -> bool {
    let q = 12 * s - 3 + 3 * i;
    let st = s + 1;
    &&& r[q] == st + (i + 2) % s
    &&& r[q + 1] == st + i + 1
    &&& r[q + 2] == st
}

/// The indices of the triangles of an arrow drawn with `segments` segments
/// around it, over the vertices laid out as [`arrow_index_buffer`] says: the
/// tip is vertex 0, the rim of the head the next `segments`, then the two
/// rings of the tail. The blocks of the buffer are, in order, the side and
/// base of the cone and the side and end of the tail, and every index is a
/// vertex of the arrow.
pub fn arrow_indices(segments: u32) -> (r: Vec<u32>)
    requires
        segments >= 1,
        3 * segments <= u32::MAX,
    ensures
        r@ == arrow_index_buffer(segments),
        r@.len() == 15 * segments - 6,
        forall|i: int| 0 <= i < segments ==> #[trigger] cone_side_at(r@, segments as int, i),
        forall|i: int| 0 <= i < segments - 1 ==> #[trigger] cone_base_at(r@, segments as int, i),
        forall|i: int| 0 <= i < segments ==> #[trigger] tail_side_at(r@, segments as int, i),
        forall|i: int| 0 <= i < segments - 1 ==> #[trigger] tail_end_at(r@, segments as int, i),
        forall|k: int| 0 <= k < r@.len() ==> #[trigger] r@[k] <= 3 * segments,
{
    let s = segments;
    let mut r: Vec<u32> = Vec::new();
    for i in 0..s
        invariant
            s == segments,
            1 <= s,
            3 * s <= u32::MAX,
            r@ == cone_sides(s, i as nat),
            r@.len() == 3 * i,
            forall|k: int| 0 <= k < i ==> #[trigger] cone_side_at(r@, s as int, k),
            forall|k: int| 0 <= k < r@.len() ==> #[trigger] r@[k] <= 3 * s,
    {
        let ghost before = r@;
        r.push(0);
        r.push(i + 1);
        r.push((i + 1) % s + 1);
        assert(r@ =~= cone_sides(s, (i + 1) as nat));
        assert forall|k: int| 0 <= k < i + 1 implies #[trigger] cone_side_at(r@, s as int, k) by {
            if k < i {
                assert(cone_side_at(before, s as int, k));
            }
        }
        assert forall|k: int| 0 <= k < r@.len() implies #[trigger] r@[k] <= 3 * s by {
            if k < before.len() {
                assert(r@[k] == before[k]);
            }
        }
    }
    let ghost sides = r@;
    for i in 0..s - 1
        invariant
            s == segments,
            1 <= s,
            3 * s <= u32::MAX,
            r@ == sides + cone_base(s, i as nat),
            r@.len() == 3 * s + 3 * i,
            forall|k: int| 0 <= k < s ==> #[trigger] cone_side_at(r@, s as int, k),
            forall|k: int| 0 <= k < i ==> #[trigger] cone_base_at(r@, s as int, k),
            forall|k: int| 0 <= k < r@.len() ==> #[trigger] r@[k] <= 3 * s,
    {
        let ghost before = r@;
        r.push((i + 2) % s + 1);
        r.push(i + 2);
        r.push(1);
        assert(r@ =~= sides + cone_base(s, (i + 1) as nat));
        assert forall|k: int| 0 <= k < s implies #[trigger] cone_side_at(r@, s as int, k) by {
            assert(cone_side_at(before, s as int, k));
        }
        assert forall|k: int| 0 <= k < i + 1 implies #[trigger] cone_base_at(r@, s as int, k) by {
            if k < i {
                assert(cone_base_at(before, s as int, k));
            }
        }
        assert forall|k: int| 0 <= k < r@.len() implies #[trigger] r@[k] <= 3 * s by {
            if k < before.len() {
                assert(r@[k] == before[k]);
            }
        }
    }
    let ghost head = r@;
    let start = s + 1;
    for i in 0..s
        invariant
            s == segments,
            1 <= s,
            3 * s <= u32::MAX,
            start == s + 1,
            r@ == head + tail_sides(s, start as nat, i as nat),
            r@.len() == 6 * s - 3 + 6 * i,
            forall|k: int| 0 <= k < s ==> #[trigger] cone_side_at(r@, s as int, k),
            forall|k: int| 0 <= k < s - 1 ==> #[trigger] cone_base_at(r@, s as int, k),
            forall|k: int| 0 <= k < i ==> #[trigger] tail_side_at(r@, s as int, k),
            forall|k: int| 0 <= k < r@.len() ==> #[trigger] r@[k] <= 3 * s,
    {
        let ghost before = r@;
        let next = (i + 1) % s;
        r.push(start + i);
        r.push(start + next);
        r.push(start + i + s);
        r.push(start + next);
        r.push(start + next + s);
        r.push(start + i + s);
        assert(r@ =~= head + tail_sides(s, start as nat, (i + 1) as nat));
        assert forall|k: int| 0 <= k < s implies #[trigger] cone_side_at(r@, s as int, k) by {
            assert(cone_side_at(before, s as int, k));
        }
        assert forall|k: int| 0 <= k < s - 1 implies #[trigger] cone_base_at(r@, s as int, k) by {
            assert(cone_base_at(before, s as int, k));
        }
        assert forall|k: int| 0 <= k < i + 1 implies #[trigger] tail_side_at(r@, s as int, k) by {
            if k < i {
                assert(tail_side_at(before, s as int, k));
            }
        }
        assert forall|k: int| 0 <= k < r@.len() implies #[trigger] r@[k] <= 3 * s by {
            if k < before.len() {
                assert(r@[k] == before[k]);
            }
        }
    }
    let ghost body = r@;
    for i in 0..s - 1
        invariant
            s == segments,
            1 <= s,
            3 * s <= u32::MAX,
            start == s + 1,
            r@ == body + tail_end(s, start as nat, i as nat),
            r@.len() == 12 * s - 3 + 3 * i,
            forall|k: int| 0 <= k < s ==> #[trigger] cone_side_at(r@, s as int, k),
            forall|k: int| 0 <= k < s - 1 ==> #[trigger] cone_base_at(r@, s as int, k),
            forall|k: int| 0 <= k < s ==> #[trigger] tail_side_at(r@, s as int, k),
            forall|k: int| 0 <= k < i ==> #[trigger] tail_end_at(r@, s as int, k),
            forall|k: int| 0 <= k < r@.len() ==> #[trigger] r@[k] <= 3 * s,
    {
        let ghost before = r@;
        r.push(start + (i + 2) % s);
        r.push(start + i + 1);
        r.push(start);
        assert(r@ =~= body + tail_end(s, start as nat, (i + 1) as nat));
        assert forall|k: int| 0 <= k < s implies #[trigger] cone_side_at(r@, s as int, k) by {
            assert(cone_side_at(before, s as int, k));
        }
        assert forall|k: int| 0 <= k < s - 1 implies #[trigger] cone_base_at(r@, s as int, k) by {
            assert(cone_base_at(before, s as int, k));
        }
        assert forall|k: int| 0 <= k < s implies #[trigger] tail_side_at(r@, s as int, k) by {
            assert(tail_side_at(before, s as int, k));
        }
        assert forall|k: int| 0 <= k < i + 1 implies #[trigger] tail_end_at(r@, s as int, k) by {
            if k < i {
                assert(tail_end_at(before, s as int, k));
            }
        }
        assert forall|k: int| 0 <= k < r@.len() implies #[trigger] r@[k] <= 3 * s by {
            if k < before.len() {
                assert(r@[k] == before[k]);
            }
        }
    }
    r
}

/// The two triangles of the quad of a toroid between sections `phi` and
/// the next, and segments `theta` and the next. Vertex `p * seg + t` is
/// segment `t` of section `p`.
pub open spec fn toroid_quad(sec: u32, seg: u32, phi: nat, theta: nat) -> Seq<u32> {
    let p = phi * (seg as nat);
    let np = ((phi + 1) % (sec as nat)) * (seg as nat);
    let nt = (theta + 1) % (seg as nat);
    seq![
        (p + nt) as u32,
        (np + theta) as u32,
        (p + theta) as u32,
        (p + nt) as u32,
        (np + nt) as u32,
        (np + theta) as u32,
    ]
}

/// The quads of section `phi` of a toroid, for its first `t` segments.
pub open spec fn toroid_section(sec: u32, seg: u32, phi: nat, t: nat) -> Seq<u32>
    decreases t,
{
    if t == 0 {
        Seq::empty()
    } else {
        toroid_section(sec, seg, phi, (t - 1) as nat) + toroid_quad(sec, seg, phi, (t - 1) as nat)
    }
}

/// The index buffer of a toroid, for its first `p` sections.
pub open spec fn toroid_index_buffer(sec: u32, seg: u32, p: nat) -> Seq<u32>
    decreases p,
{
    if p == 0 {
        Seq::empty()
    } else {
        toroid_index_buffer(sec, seg, (p - 1) as nat) + toroid_section(sec, seg, (p - 1) as nat, seg as nat)
    }
}

/// Vertices of the sections before the last stay below the vertex count.
proof fn lemma_section_start(phi: nat, sec: nat, seg: nat)
    requires
        phi < sec,
    ensures
        phi * seg + seg <= sec * seg,
{
    assert(phi * seg + seg <= sec * seg) by (nonlinear_arith)
        requires
            phi < sec,
    ;
}

/// The six indices of `r` from `q` on form the quad at section `phi`,
/// segment `theta`: it joins that section to the next one round the
/// toroid, `(phi + 1) % sec`, and that segment to the next one round the
/// tube, `(theta + 1) % seg`, vertex `p * seg + t` being segment `t` of
/// section `p`.
pub open spec fn joins_at(r: Seq<u32>, q: int, sec: int, seg: int, phi: int, theta: int) -> bool {
    let here = phi * seg;
    let next = ((phi + 1) % sec) * seg;
    let nt = (theta + 1) % seg;
    &&& r[q] == here + nt
    &&& r[q + 1] == next + theta
    &&& r[q + 2] == here + theta
    &&& r[q + 3] == here + nt
    &&& r[q + 4] == next + nt
    &&& r[q + 5] == next + theta
}

/// The quad of `r` at section `phi`, segment `theta` sits at its place in
/// the buffer, `6 * (phi * seg + theta)`, and joins as [`joins_at`] says.
pub open spec fn joins_next(r: Seq<u32>, sec: int, seg: int, phi: int, theta: int) -> bool {
    joins_at(r, 6 * (phi * seg + theta), sec, seg, phi, theta)
}

/// The quads of one section, as built, each join the section to the next.
proof fn lemma_toroid_section(sec: u32, seg: u32, phi: nat, t: nat)
    requires
        t <= seg,
        phi < sec,
        sec * seg <= u32::MAX,
    ensures
        toroid_section(sec, seg, phi, t).len() == 6 * t,
        forall|th: int| 0 <= th < t ==> #[trigger] joins_at(
            toroid_section(sec, seg, phi, t),
            6 * th,
            sec as int,
            seg as int,
            phi as int,
            th,
        ),
    decreases t,
{
    if t > 0 {
        let prev = toroid_section(sec, seg, phi, (t - 1) as nat);
        let cur = toroid_section(sec, seg, phi, t);
        lemma_toroid_section(sec, seg, phi, (t - 1) as nat);
        let th = t - 1;
        let np = (phi + 1) % (sec as nat);
        lemma_section_start(phi, sec as nat, seg as nat);
        lemma_section_start(np, sec as nat, seg as nat);
        assert(joins_at(cur, 6 * th, sec as int, seg as int, phi as int, th));
        assert forall|k: int| 0 <= k < t implies #[trigger] joins_at(cur, 6 * k, sec as int, seg as int, phi as int, k) by {
            if k < th {
                assert(joins_at(prev, 6 * k, sec as int, seg as int, phi as int, k));
            }
        }
    }
}

/// Every quad of the index buffer of a toroid joins its section to the
/// next one round the toroid, and its segment to the next one round the
/// tube: the buffer of the first `p` sections holds six indices per quad,
/// the quad at section `phi`, segment `theta` at `6 * (phi * seg + theta)`.
pub proof fn lemma_toroid_joins_sections(sec: u32, seg: u32, p: nat)
    requires
        p <= sec,
        sec * seg <= u32::MAX,
    ensures
        toroid_index_buffer(sec, seg, p).len() == 6 * (p * seg),
        forall|phi: int, theta: int|
            0 <= phi < p && 0 <= theta < seg ==> #[trigger] joins_next(
                toroid_index_buffer(sec, seg, p),
                sec as int,
                seg as int,
                phi,
                theta,
            ),
    decreases p,
{
    if p > 0 {
        let last = (p - 1) as nat;
        let before = toroid_index_buffer(sec, seg, last);
        let section = toroid_section(sec, seg, last, seg as nat);
        let all = toroid_index_buffer(sec, seg, p);
        lemma_toroid_joins_sections(sec, seg, last);
        lemma_toroid_section(sec, seg, last, seg as nat);
        assert(all == before + section);
        assert(last * seg + seg == p * seg) by (nonlinear_arith)
            requires
                last + 1 == p,
        ;
        assert forall|phi: int, theta: int|
            0 <= phi < p && 0 <= theta < seg implies #[trigger] joins_next(all, sec as int, seg as int, phi, theta) by {
            if phi < last {
                lemma_quad_before(phi, theta, last as int, 0, seg as int);
                assert(joins_next(before, sec as int, seg as int, phi, theta));
            } else {
                assert(joins_at(section, 6 * theta, sec as int, seg as int, phi, theta));
                assert(6 * (phi * seg + theta) == before.len() + 6 * theta);
            }
        }
    }
}

/// The quad of an earlier segment, or of an earlier section, lies before
/// the quad at section `phi`, segment `theta`.
proof fn lemma_quad_before(a: int, t: int, phi: int, theta: int, seg: int)
    requires
        0 <= a,
        0 <= t < seg,
        0 <= theta,
        a < phi || (a == phi && t < theta),
    ensures
        6 * (a * seg + t) + 5 < 6 * (phi * seg + theta),
{
    if a < phi {
        assert(a * seg + seg <= phi * seg) by (nonlinear_arith)
            requires
                a < phi,
                0 <= seg,
        ;
    }
}

/// The indices of the triangles of a toroid of `sections` sections of
/// `segments` segments each, over the vertices of one section after
/// another, as [`toroid_index_buffer`] says: six per quad, every quad
/// joining a section to the next one round the toroid, and every index a
/// vertex of the toroid.
pub fn toroid_indices(sections: u32, segments: u32) -> (r: Vec<u32>)
    requires
        sections * segments <= u32::MAX,
    ensures
        r@ == toroid_index_buffer(sections, segments, sections as nat),
        r@.len() == 6 * (sections * segments),
        forall|phi: int, theta: int|
            0 <= phi < sections && 0 <= theta < segments ==> #[trigger] joins_next(
                r@,
                sections as int,
                segments as int,
                phi,
                theta,
            ),
        forall|k: int| 0 <= k < r@.len() ==> #[trigger] r@[k] < sections * segments,
{
    let mut r: Vec<u32> = Vec::new();
    for phi in 0..sections
        invariant
            sections * segments <= u32::MAX,
            r@ == toroid_index_buffer(sections, segments, phi as nat),
            r@.len() == 6 * (phi * segments),
            forall|a: int, t: int|
                0 <= a < phi && 0 <= t < segments ==> #[trigger] joins_next(
                    r@,
                    sections as int,
                    segments as int,
                    a,
                    t,
                ),
            forall|k: int| 0 <= k < r@.len() ==> #[trigger] r@[k] < sections * segments,
    {
        let next_phi = (phi + 1) % sections;
        proof {
            lemma_section_start(phi as nat, sections as nat, segments as nat);
            lemma_section_start(next_phi as nat, sections as nat, segments as nat);
        }
        let base = phi * segments;
        let next_base = next_phi * segments;
        let ghost row = r@;
        for theta in 0..segments
            invariant
                sections * segments <= u32::MAX,
                phi < sections,
                next_phi == (phi + 1) % (sections as int),
                base == phi * segments,
                next_base == next_phi * segments,
                base + segments <= sections * segments,
                next_base + segments <= sections * segments,
                row == toroid_index_buffer(sections, segments, phi as nat),
                r@ == row + toroid_section(sections, segments, phi as nat, theta as nat),
                r@.len() == 6 * (base + theta),
                forall|a: int, t: int|
                    0 <= a < phi && 0 <= t < segments ==> #[trigger] joins_next(
                        r@,
                        sections as int,
                        segments as int,
                        a,
                        t,
                    ),
                forall|t: int| 0 <= t < theta ==> #[trigger] joins_next(
                    r@,
                    sections as int,
                    segments as int,
                    phi as int,
                    t,
                ),
                forall|k: int| 0 <= k < r@.len() ==> #[trigger] r@[k] < sections * segments,
        {
            let ghost before = r@;
            let next_theta = (theta + 1) % segments;
            r.push(base + next_theta);
            r.push(next_base + theta);
            r.push(base + theta);
            r.push(base + next_theta);
            r.push(next_base + next_theta);
            r.push(next_base + theta);
            assert(r@ =~= row + toroid_section(sections, segments, phi as nat, (theta + 1) as nat));
            proof {
                assert(r@.len() == before.len() + 6);
                assert forall|x: int| 0 <= x < before.len() implies r@[x] == before[x] by {}
                assert forall|a: int, t: int|
                    0 <= a < phi && 0 <= t < segments implies #[trigger] joins_next(
                        r@,
                        sections as int,
                        segments as int,
                        a,
                        t,
                    ) by {
                    lemma_quad_before(a, t, phi as int, theta as int, segments as int);
                    assert(joins_next(before, sections as int, segments as int, a, t));
                }
                assert forall|t: int| 0 <= t < theta + 1 implies #[trigger] joins_next(
                    r@,
                    sections as int,
                    segments as int,
                    phi as int,
                    t,
                ) by {
                    if t < theta {
                        lemma_quad_before(phi as int, t, phi as int, theta as int, segments as int);
                        assert(joins_next(before, sections as int, segments as int, phi as int, t));
                    }
                }
                assert forall|k: int| 0 <= k < r@.len() implies #[trigger] r@[k] < sections * segments by {
                    if k < before.len() {
                        assert(r@[k] == before[k]);
                    }
                }
            }
        }
        proof {
            assert(base + segments == (phi + 1) * segments) by (nonlinear_arith)
                requires
                    base == phi * segments,
            ;
            assert forall|a: int, t: int|
                0 <= a < phi + 1 && 0 <= t < segments implies #[trigger] joins_next(
                    r@,
                    sections as int,
                    segments as int,
                    a,
                    t,
                ) by {
                if a == phi {
                    assert(joins_next(r@, sections as int, segments as int, phi as int, t));
                }
            }
        }
    }
    r
}

} // verus!

use vstd::prelude::*;

verus! {

/// The in-bounds cell reached from `(r, c)` by the step `(dr, dc)`, where a
/// step of `usize::MAX` stands for `-1` (coordinates wrap around).
pub open spec fn step_in_grid(r: usize, c: usize, h: usize, w: usize, dr: usize, dc: usize) -> Seq<(usize, usize)> {
    let nr = r.wrapping_add(dr);
    let nc = c.wrapping_add(dc);
    if nr < h && nc < w {
        seq![(nr, nc)]
    } else {
        Seq::empty()
    }
}

/// The 4-neighbourhood in the order right, left, down, up.
pub open spec fn neighbors4_spec(r: usize, c: usize, h: usize, w: usize) -> Seq<(usize, usize)> {
    step_in_grid(r, c, h, w, 0, 1) + step_in_grid(r, c, h, w, 0, usize::MAX) + step_in_grid(
        r,
        c,
        h,
        w,
        1,
        0,
    ) + step_in_grid(r, c, h, w, usize::MAX, 0)
}

/// The 8-neighbourhood, rows `r - 1, r, r + 1` in turn and within a row the
/// columns `c - 1, c, c + 1`, skipping `(r, c)` itself.
pub open spec fn neighbors8_spec(r: usize, c: usize, h: usize, w: usize) -> Seq<(usize, usize)> {
    step_in_grid(r, c, h, w, usize::MAX, usize::MAX) + step_in_grid(r, c, h, w, usize::MAX, 0)
        + step_in_grid(r, c, h, w, usize::MAX, 1) + step_in_grid(r, c, h, w, 0, usize::MAX)
        + step_in_grid(r, c, h, w, 0, 1) + step_in_grid(r, c, h, w, 1, usize::MAX)
        + step_in_grid(r, c, h, w, 1, 0) + step_in_grid(r, c, h, w, 1, 1)
}

/// `(nr, nc)` is next to `(r, c)` in the same row or the same column.
pub open spec fn adjacent4(r: int, c: int, nr: int, nc: int) -> bool {
    ||| nr == r && (nc == c + 1 || nc == c - 1)
    ||| nc == c && (nr == r + 1 || nr == r - 1)
}

/// `(nr, nc)` is one of the eight cells around `(r, c)`.
pub open spec fn adjacent8(r: int, c: int, nr: int, nc: int) -> bool {
    &&& r - 1 <= nr <= r + 1
    &&& c - 1 <= nc <= c + 1
    &&& (nr != r || nc != c)
}

proof fn lemma_concat_contains(a: Seq<(usize, usize)>, b: Seq<(usize, usize)>, x: (usize, usize))
    ensures
        (a + b).contains(x) <==> a.contains(x) || b.contains(x),
{
    if a.contains(x) {
        let i = choose|i: int| 0 <= i < a.len() && a[i] == x;
        assert((a + b)[i] == x);
    }
    if b.contains(x) {
        let j = choose|j: int| 0 <= j < b.len() && b[j] == x;
        assert((a + b)[a.len() + j] == x);
    }
    if (a + b).contains(x) {
        let k = choose|k: int| 0 <= k < (a + b).len() && (a + b)[k] == x;
        if k < a.len() {
            assert(a[k] == x);
        } else {
            assert(b[k - a.len()] == x);
        }
    }
}

proof fn lemma_step_contains(r: usize, c: usize, h: usize, w: usize, dr: usize, dc: usize, x: (usize, usize))
    ensures
        step_in_grid(r, c, h, w, dr, dc).contains(x) <==> x == (r.wrapping_add(dr), c.wrapping_add(dc))
            && x.0 < h && x.1 < w,
{
    let nr = r.wrapping_add(dr);
    let nc = c.wrapping_add(dc);
    if nr < h && nc < w {
        assert(step_in_grid(r, c, h, w, dr, dc)[0] == (nr, nc));
    }
}

/// The 4-neighbourhood lies inside the grid, holds only cells next to
/// `(r, c)` (for coordinates that do not wrap around), and holds every cell
/// of the grid next to `(r, c)`.
pub proof fn lemma_neighbors4(r: usize, c: usize, h: usize, w: usize)
    ensures
        forall|i: int|
            0 <= i < neighbors4_spec(r, c, h, w).len() ==> (#[trigger] neighbors4_spec(r, c, h, w)[i]).0 < h
                && neighbors4_spec(r, c, h, w)[i].1 < w,
        r < usize::MAX && c < usize::MAX ==> forall|i: int|
            0 <= i < neighbors4_spec(r, c, h, w).len() ==> adjacent4(
                r as int,
                c as int,
                (#[trigger] neighbors4_spec(r, c, h, w)[i]).0 as int,
                neighbors4_spec(r, c, h, w)[i].1 as int,
            ),
        forall|nr: usize, nc: usize|
            adjacent4(r as int, c as int, nr as int, nc as int) && nr < h && nc < w
                ==> #[trigger] neighbors4_spec(r, c, h, w).contains((nr, nc)),
{
    let p0 = step_in_grid(r, c, h, w, 0, 1);
    let p1 = step_in_grid(r, c, h, w, 0, usize::MAX);
    let p2 = step_in_grid(r, c, h, w, 1, 0);
    let p3 = step_in_grid(r, c, h, w, usize::MAX, 0);
    let s = neighbors4_spec(r, c, h, w);
    assert forall|x: (usize, usize)| #[trigger] s.contains(x) <==> p0.contains(x) || p1.contains(x)
        || p2.contains(x) || p3.contains(x) by {
        lemma_concat_contains(p0, p1, x);
        lemma_concat_contains(p0 + p1, p2, x);
        lemma_concat_contains(p0 + p1 + p2, p3, x);
        lemma_step_contains(r, c, h, w, 0, 1, x);
        lemma_step_contains(r, c, h, w, 0, usize::MAX, x);
        lemma_step_contains(r, c, h, w, 1, 0, x);
        lemma_step_contains(r, c, h, w, usize::MAX, 0, x);
    }
    assert forall|i: int| 0 <= i < s.len() implies (#[trigger] s[i]).0 < h && s[i].1 < w && (r
        < usize::MAX && c < usize::MAX ==> adjacent4(r as int, c as int, s[i].0 as int, s[i].1 as int)) by {
        let x = s[i];
        assert(s.contains(x));
        lemma_step_contains(r, c, h, w, 0, 1, x);
        lemma_step_contains(r, c, h, w, 0, usize::MAX, x);
        lemma_step_contains(r, c, h, w, 1, 0, x);
        lemma_step_contains(r, c, h, w, usize::MAX, 0, x);
    }
    assert forall|nr: usize, nc: usize|
        adjacent4(r as int, c as int, nr as int, nc as int) && nr < h && nc < w implies #[trigger] s.contains(
        (nr, nc),
    ) by {
        let x = (nr, nc);
        lemma_step_contains(r, c, h, w, 0, 1, x);
        lemma_step_contains(r, c, h, w, 0, usize::MAX, x);
        lemma_step_contains(r, c, h, w, 1, 0, x);
        lemma_step_contains(r, c, h, w, usize::MAX, 0, x);
    }
}

/// The 8-neighbourhood lies inside the grid, holds only cells around
/// `(r, c)` (for coordinates that do not wrap around), and holds every cell
/// of the grid around `(r, c)`.
pub proof fn lemma_neighbors8(r: usize, c: usize, h: usize, w: usize)
    ensures
        forall|i: int|
            0 <= i < neighbors8_spec(r, c, h, w).len() ==> (#[trigger] neighbors8_spec(r, c, h, w)[i]).0 < h
                && neighbors8_spec(r, c, h, w)[i].1 < w,
        r < usize::MAX && c < usize::MAX ==> forall|i: int|
            0 <= i < neighbors8_spec(r, c, h, w).len() ==> adjacent8(
                r as int,
                c as int,
                (#[trigger] neighbors8_spec(r, c, h, w)[i]).0 as int,
                neighbors8_spec(r, c, h, w)[i].1 as int,
            ),
        forall|nr: usize, nc: usize|
            adjacent8(r as int, c as int, nr as int, nc as int) && nr < h && nc < w
                ==> #[trigger] neighbors8_spec(r, c, h, w).contains((nr, nc)),
{
    let p0 = step_in_grid(r, c, h, w, usize::MAX, usize::MAX);
    let p1 = step_in_grid(r, c, h, w, usize::MAX, 0);
    let p2 = step_in_grid(r, c, h, w, usize::MAX, 1);
    let p3 = step_in_grid(r, c, h, w, 0, usize::MAX);
    let p4 = step_in_grid(r, c, h, w, 0, 1);
    let p5 = step_in_grid(r, c, h, w, 1, usize::MAX);
    let p6 = step_in_grid(r, c, h, w, 1, 0);
    let p7 = step_in_grid(r, c, h, w, 1, 1);
    let s = neighbors8_spec(r, c, h, w);
    assert forall|x: (usize, usize)| #[trigger] s.contains(x) <==> p0.contains(x) || p1.contains(x) || p2.contains(x) || p3.contains(x) || p4.contains(x) || p5.contains(x) || p6.contains(x) || p7.contains(x) by {
        lemma_concat_contains(p0, p1, x);
        lemma_concat_contains(p0 + p1, p2, x);
        lemma_concat_contains(p0 + p1 + p2, p3, x);
        lemma_concat_contains(p0 + p1 + p2 + p3, p4, x);
        lemma_concat_contains(p0 + p1 + p2 + p3 + p4, p5, x);
        lemma_concat_contains(p0 + p1 + p2 + p3 + p4 + p5, p6, x);
        lemma_concat_contains(p0 + p1 + p2 + p3 + p4 + p5 + p6, p7, x);
    }
    assert forall|i: int| 0 <= i < s.len() implies (#[trigger] s[i]).0 < h && s[i].1 < w && (r
        < usize::MAX && c < usize::MAX ==> adjacent8(r as int, c as int, s[i].0 as int, s[i].1 as int)) by {
        let x = s[i];
        assert(s.contains(x));
        lemma_step_contains(r, c, h, w, usize::MAX, usize::MAX, x);
        lemma_step_contains(r, c, h, w, usize::MAX, 0, x);
        lemma_step_contains(r, c, h, w, usize::MAX, 1, x);
        lemma_step_contains(r, c, h, w, 0, usize::MAX, x);
        lemma_step_contains(r, c, h, w, 0, 1, x);
        lemma_step_contains(r, c, h, w, 1, usize::MAX, x);
        lemma_step_contains(r, c, h, w, 1, 0, x);
        lemma_step_contains(r, c, h, w, 1, 1, x);
    }
    assert forall|nr: usize, nc: usize|
        adjacent8(r as int, c as int, nr as int, nc as int) && nr < h && nc < w implies #[trigger] s.contains(
        (nr, nc),
    ) by {
        let x = (nr, nc);
        lemma_step_contains(r, c, h, w, usize::MAX, usize::MAX, x);
        lemma_step_contains(r, c, h, w, usize::MAX, 0, x);
        lemma_step_contains(r, c, h, w, usize::MAX, 1, x);
        lemma_step_contains(r, c, h, w, 0, usize::MAX, x);
        lemma_step_contains(r, c, h, w, 0, 1, x);
        lemma_step_contains(r, c, h, w, 1, usize::MAX, x);
        lemma_step_contains(r, c, h, w, 1, 0, x);
        lemma_step_contains(r, c, h, w, 1, 1, x);
    }
}

/// Returns the 4-directional neighbours of `(r, c)` that lie inside an
/// `h` x `w` grid.
pub fn neighbors4(r: usize, c: usize, h: usize, w: usize) -> (res: Vec<(usize, usize)>)
    ensures
        res@ == neighbors4_spec(r, c, h, w),
        forall|i: int| 0 <= i < res@.len() ==> (#[trigger] res@[i]).0 < h && res@[i].1 < w,
        r < usize::MAX && c < usize::MAX ==> forall|i: int|
            0 <= i < res@.len() ==> adjacent4(r as int, c as int, (#[trigger] res@[i]).0 as int, res@[i].1 as int),
        forall|nr: usize, nc: usize|
            adjacent4(r as int, c as int, nr as int, nc as int) && nr < h && nc < w ==> #[trigger] res@.contains((nr, nc)),
{
    let mut neighbors: Vec<(usize, usize)> = Vec::with_capacity(4);
    let dr: [usize; 4] = [0, 0, 1, usize::MAX];
    let dc: [usize; 4] = [1, usize::MAX, 0, 0];
    let ghost dirs = seq![(0usize, 1usize), (0usize, usize::MAX), (1usize, 0usize), (usize::MAX, 0usize)];
    let ghost parts = Seq::new(4, |k: int| step_in_grid(r, c, h, w, dirs[k].0, dirs[k].1));
    let mut i: usize = 0;
    while i < 4
        invariant
            0 <= i <= 4,
            dr@ == seq![0usize, 0usize, 1usize, usize::MAX],
            dc@ == seq![1usize, usize::MAX, 0usize, 0usize],
            parts == Seq::new(4, |k: int| step_in_grid(r, c, h, w, dirs[k].0, dirs[k].1)),
            dirs == seq![(0usize, 1usize), (0usize, usize::MAX), (1usize, 0usize), (usize::MAX, 0usize)],
            neighbors@ == parts.take(i as int).fold_left(Seq::<(usize, usize)>::empty(), |acc: Seq<(usize, usize)>, p: Seq<(usize, usize)>| acc + p),
        decreases 4 - i,
    {
        let nr = r.wrapping_add(dr[i]);
        let nc = c.wrapping_add(dc[i]);
        if nr < h && nc < w {
            neighbors.push((nr, nc));
        }
        proof {
            assert(parts.take(i + 1).drop_last() == parts.take(i as int));
        }
        i += 1;
    }
    proof {
        assert(parts.take(4) == parts);
        reveal_with_fuel(Seq::fold_left, 5);
        lemma_neighbors4(r, c, h, w);
    }
    neighbors
}

/// Returns the 8-directional neighbours (horizontal, vertical, diagonal) of
/// `(r, c)` that lie inside an `h` x `w` grid.
pub fn neighbors8(r: usize, c: usize, h: usize, w: usize) -> (res: Vec<(usize, usize)>)
    ensures
        res@ == neighbors8_spec(r, c, h, w),
        forall|i: int| 0 <= i < res@.len() ==> (#[trigger] res@[i]).0 < h && res@[i].1 < w,
        r < usize::MAX && c < usize::MAX ==> forall|i: int|
            0 <= i < res@.len() ==> adjacent8(r as int, c as int, (#[trigger] res@[i]).0 as int, res@[i].1 as int),
        forall|nr: usize, nc: usize|
            adjacent8(r as int, c as int, nr as int, nc as int) && nr < h && nc < w ==> #[trigger] res@.contains((nr, nc)),
{
    let mut neighbors: Vec<(usize, usize)> = Vec::with_capacity(8);
    let deltas: [usize; 3] = [usize::MAX, 0, 1];
    let ghost cells = seq![
        step_in_grid(r, c, h, w, usize::MAX, usize::MAX),
        step_in_grid(r, c, h, w, usize::MAX, 0),
        step_in_grid(r, c, h, w, usize::MAX, 1),
        step_in_grid(r, c, h, w, 0, usize::MAX),
        Seq::<(usize, usize)>::empty(),
        step_in_grid(r, c, h, w, 0, 1),
        step_in_grid(r, c, h, w, 1, usize::MAX),
        step_in_grid(r, c, h, w, 1, 0),
        step_in_grid(r, c, h, w, 1, 1)
    ];
    let mut i: usize = 0;
    while i < 3
        invariant
            0 <= i <= 3,
            deltas@ == seq![usize::MAX, 0usize, 1usize],
            neighbors@ == concat_all(cells.take(3 * i as int)),
            cells.len() == 9,
            forall|k: int| 0 <= k < 9 && k != 4 ==> #[trigger] cells[k] == step_in_grid(r, c, h, w, deltas@[k / 3], deltas@[k % 3]),
            cells[4] == Seq::<(usize, usize)>::empty(),
        decreases 3 - i,
    {
        let dr = deltas[i];
        let mut j: usize = 0;
        while j < 3
            invariant
                0 <= i < 3,
                0 <= j <= 3,
                dr == deltas@[i as int],
                deltas@ == seq![usize::MAX, 0usize, 1usize],
                neighbors@ == concat_all(cells.take(3 * i + j)),
                cells.len() == 9,
                forall|k: int| 0 <= k < 9 && k != 4 ==> #[trigger] cells[k] == step_in_grid(r, c, h, w, deltas@[k / 3], deltas@[k % 3]),
                cells[4] == Seq::<(usize, usize)>::empty(),
            decreases 3 - j,
        {
            let dc = deltas[j];
            let k = 3 * i + j;
            proof {
                lemma_concat_all_push(cells, k as int);
                assert(k / 3 == i && k % 3 == j);
            }
            if dr == 0 && dc == 0 {
                assert(k == 4);
                j += 1;
                continue;
            }
            let nr = r.wrapping_add(dr);
            let nc = c.wrapping_add(dc);
            if nr < h && nc < w {
                neighbors.push((nr, nc));
            }
            j += 1;
        }
        i += 1;
    }
    proof {
        assert(cells.take(9) == cells);
        reveal_with_fuel(concat_all, 10);
        assert(cells[0] == step_in_grid(r, c, h, w, deltas@[0], deltas@[0]));
        assert(cells[1] == step_in_grid(r, c, h, w, deltas@[0], deltas@[1]));
        assert(cells[2] == step_in_grid(r, c, h, w, deltas@[0], deltas@[2]));
        assert(cells[3] == step_in_grid(r, c, h, w, deltas@[1], deltas@[0]));
        assert(cells[5] == step_in_grid(r, c, h, w, deltas@[1], deltas@[2]));
        assert(cells[6] == step_in_grid(r, c, h, w, deltas@[2], deltas@[0]));
        assert(cells[7] == step_in_grid(r, c, h, w, deltas@[2], deltas@[1]));
        assert(cells[8] == step_in_grid(r, c, h, w, deltas@[2], deltas@[2]));
        lemma_neighbors8(r, c, h, w);
    }
    neighbors
}

/// Concatenation of a sequence of sequences, in order.
pub open spec fn concat_all(parts: Seq<Seq<(usize, usize)>>) -> Seq<(usize, usize)>
    decreases parts.len(),
{
    if parts.len() == 0 {
        Seq::empty()
    } else {
        concat_all(parts.drop_last()) + parts.last()
    }
}

proof fn lemma_concat_all_push(parts: Seq<Seq<(usize, usize)>>, k: int)
    requires
        0 <= k < parts.len(),
    ensures
        concat_all(parts.take(k + 1)) == concat_all(parts.take(k)) + parts[k],
{
    assert(parts.take(k + 1).drop_last() == parts.take(k));
}

} // verus!

//! Rectangular grid topology of one cloth instance: which particles are
//! linked, and which are pinned.
use vstd::prelude::*;
use vstd::arithmetic::div_mod::lemma_fundamental_div_mod_converse;

verus! {

/// Number of structural links of a `width` by `height` grid: every
/// horizontally and every vertically adjacent pair once.
pub open spec fn link_count(width: int, height: int) -> int {
    height * (width - 1) + width * (height - 1)
}

/// The endpoints (local indices) of link `k`: first all horizontal links,
/// row by row, then all vertical links, column by column.
pub open spec fn link_ends(width: int, height: int, k: int) -> (int, int) {
    let nh = height * (width - 1);
    if k < nh {
        let y = k / (width - 1);
        let x = k % (width - 1);
        (x + y * width, x + 1 + y * width)
    } else {
        let x = (k - nh) / (height - 1);
        let y = (k - nh) % (height - 1);
        (x + y * width, x + (y + 1) * width)
    }
}

/// A particle is pinned when it is in column 0 and in the first or last row.
pub open spec fn corner_pinned(width: int, height: int, i: int) -> bool {
    i % width == 0 && (i / width == 0 || i / width == height - 1)
}

/// Every link joins two distinct particles of the grid.
pub proof fn lemma_link_ends_in_grid(width: int, height: int, k: int)
    requires
        width >= 1,
        height >= 1,
        0 <= k < link_count(width, height),
    ensures
        0 <= link_ends(width, height, k).0 < width * height,
        0 <= link_ends(width, height, k).1 < width * height,
        link_ends(width, height, k).0 != link_ends(width, height, k).1,
{
    let nh = height * (width - 1);
    if k < nh {
        let y = k / (width - 1);
        let x = k % (width - 1);
        assert(width - 1 > 0) by (nonlinear_arith)
            requires 0 <= k < height * (width - 1), height >= 1;
        assert(0 <= y < height && 0 <= x < width - 1) by (nonlinear_arith)
            requires 0 <= k < height * (width - 1), width - 1 > 0, y == k / (width - 1), x == k % (width - 1);
        assert(x + 1 + y * width < width * height && x + y * width < width * height) by (nonlinear_arith)
            requires 0 <= y < height, 0 <= x < width - 1;
        assert(0 <= x + y * width) by (nonlinear_arith)
            requires 0 <= y, 0 <= x, width >= 1;
    } else {
        let j = k - nh;
        let x = j / (height - 1);
        let y = j % (height - 1);
        assert(height - 1 > 0 && j < width * (height - 1)) by (nonlinear_arith)
            requires nh <= k < nh + width * (height - 1), j == k - nh, width >= 1;
        assert(0 <= x < width && 0 <= y < height - 1) by (nonlinear_arith)
            requires 0 <= j < width * (height - 1), height - 1 > 0, x == j / (height - 1), y == j % (height - 1);
        assert(x + (y + 1) * width < width * height && 0 <= x + y * width && x + y * width < width * height)
            by (nonlinear_arith)
            requires 0 <= x < width, 0 <= y < height - 1;
        assert(x + y * width != x + (y + 1) * width) by (nonlinear_arith)
            requires width > 0;
    }
}

/// The local endpoints of every link of a `width` by `height` grid, in
/// link order.
pub fn grid_links(width: usize, height: usize) -> (r: Vec<(usize, usize)>)
    requires
        width >= 1,
        height >= 1,
        width * height <= usize::MAX,
    ensures
        r.len() == link_count(width as int, height as int),
        forall|k: int| 0 <= k < r.len() ==>
            (#[trigger] r[k]).0 == link_ends(width as int, height as int, k).0
            && r[k].1 == link_ends(width as int, height as int, k).1,
{
    let ghost w = width as int;
    let ghost h = height as int;
    let mut r: Vec<(usize, usize)> = Vec::new();
    let mut y: usize = 0;
    while y < height
        invariant
            w == width, h == height, w >= 1, h >= 1, w * h <= usize::MAX,
            y <= height,
            r.len() == y * (w - 1),
            forall|k: int| 0 <= k < r.len() ==>
                (#[trigger] r[k]).0 == link_ends(w, h, k).0 && r[k].1 == link_ends(w, h, k).1,
        decreases height - y,
    {
        let mut x: usize = 0;
        while x + 1 < width
            invariant
                w == width, h == height, w >= 1, h >= 1, w * h <= usize::MAX,
                y < height,
                x < width,
                r.len() == y * (w - 1) + x,
                forall|k: int| 0 <= k < r.len() ==>
                    (#[trigger] r[k]).0 == link_ends(w, h, k).0 && r[k].1 == link_ends(w, h, k).1,
            decreases width - x,
        {
            let ghost k = r.len() as int;
            proof {
                lemma_fundamental_div_mod_converse(k, w - 1, y as int, x as int);
                assert(k < h * (w - 1)) by (nonlinear_arith)
                    requires k == y * (w - 1) + x, x < w - 1, y < h;
                assert(x + 1 + y * w < w * h) by (nonlinear_arith)
                    requires x + 1 < w, y < h;
            }
            r.push((x + y * width, x + 1 + y * width));
            x = x + 1;
        }
        proof {
            assert(r.len() == (y + 1) * (w - 1)) by (nonlinear_arith)
                requires r.len() == y * (w - 1) + x, x + 1 >= w, x < w;
        }
        y = y + 1;
    }
    let ghost nh = h * (w - 1);
    let mut x: usize = 0;
    while x < width
        invariant
            w == width, h == height, w >= 1, h >= 1, w * h <= usize::MAX,
            nh == h * (w - 1),
            x <= width,
            r.len() == nh + x * (h - 1),
            forall|k: int| 0 <= k < r.len() ==>
                (#[trigger] r[k]).0 == link_ends(w, h, k).0 && r[k].1 == link_ends(w, h, k).1,
        decreases width - x,
    {
        let mut y: usize = 0;
        while y + 1 < height
            invariant
                w == width, h == height, w >= 1, h >= 1, w * h <= usize::MAX,
                nh == h * (w - 1),
                x < width,
                y < height,
                r.len() == nh + x * (h - 1) + y,
                forall|k: int| 0 <= k < r.len() ==>
                    (#[trigger] r[k]).0 == link_ends(w, h, k).0 && r[k].1 == link_ends(w, h, k).1,
            decreases height - y,
        {
            let ghost k = r.len() as int;
            proof {
                lemma_fundamental_div_mod_converse(k - nh, h - 1, x as int, y as int);
                assert(nh >= 0) by (nonlinear_arith)
                    requires nh == h * (w - 1), h >= 1, w >= 1;
                assert(x + (y + 1) * w < w * h && x + y * w < w * h && 0 <= y * w) by (nonlinear_arith)
                    requires 0 <= x < w, 0 <= y, y + 1 < h;
            }
            r.push((x + y * width, x + (y + 1) * width));
            y = y + 1;
        }
        proof {
            assert(r.len() == nh + (x + 1) * (h - 1)) by (nonlinear_arith)
                requires r.len() == nh + x * (h - 1) + y, y + 1 >= h, y < h;
        }
        x = x + 1;
    }
    proof {
        assert(r.len() == link_count(w, h)) by (nonlinear_arith)
            requires r.len() == nh + w * (h - 1), nh == h * (w - 1);
    }
    r
}

} // verus!

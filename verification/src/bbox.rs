//! Tight bounding box of non-background content in a luminance image.
//!
//! A pixel is content if its luminance lies below `255 - tolerance`. The
//! box is the minimal rectangle covering all content pixels; an image of
//! pure background degenerates to the full image bounds, never to an
//! empty rectangle.

use vstd::prelude::*;

verus! {

/// The luminance value at `(x, y)` of a row-major `w`-wide buffer.
pub open spec fn luma_at(luma: Seq<u8>, w: nat, x: int, y: int) -> u8 {
    luma[y * w + x]
}

/// The pixel at `(x, y)` is content: darker than the background
/// threshold `255 - tol`.
pub open spec fn is_content(luma: Seq<u8>, w: nat, tol: u8, x: int, y: int) -> bool {
    luma_at(luma, w, x, y) < 255 - tol
}

/// Some pixel of the image is content.
pub open spec fn has_content(luma: Seq<u8>, w: nat, h: nat, tol: u8) -> bool {
    exists|x: int, y: int| 0 <= x < w && 0 <= y < h && #[trigger] is_content(luma, w, tol, x, y)
}

/// `(l, t, r, b)` is the box the scan returns: the minimal rectangle
/// covering all content pixels, half-open on the right and bottom, or
/// the full image bounds where no pixel is content.
pub open spec fn valid_content_box(
    luma: Seq<u8>,
    w: nat,
    h: nat,
    tol: u8,
    l: int,
    t: int,
    r: int,
    b: int,
) -> bool {
    if has_content(luma, w, h, tol) {
        &&& 0 <= l < r <= w
        &&& 0 <= t < b <= h
        &&& forall|x: int, y: int|
            0 <= x < w && 0 <= y < h && #[trigger] is_content(luma, w, tol, x, y) ==> l <= x
                < r && t <= y < b
        &&& exists|y: int| 0 <= y < h && #[trigger] is_content(luma, w, tol, l, y)
        &&& exists|y: int| 0 <= y < h && #[trigger] is_content(luma, w, tol, r - 1, y)
        &&& exists|x: int| 0 <= x < w && #[trigger] is_content(luma, w, tol, x, t)
        &&& exists|x: int| 0 <= x < w && #[trigger] is_content(luma, w, tol, x, b - 1)
    } else {
        l == 0 && t == 0 && r == w && b == h
    }
}

/// Row-major indexing stays within the buffer.
pub proof fn lemma_rowmajor_bound(w: nat, h: nat, x: int, y: int)
    requires
        0 <= x < w,
        0 <= y < h,
    ensures
        y * w + x < w * h,
{
    assert(y * w + x < w * h) by (nonlinear_arith)
        requires
            0 <= x < w,
            0 <= y < h,
    ;
}

/// A content pixel at `(x2, y2)`, already scanned when the scan stands
/// at column `x` of row `y`.
pub open spec fn content_before(
    luma: Seq<u8>,
    w: nat,
    tol: u8,
    y: int,
    x: int,
    x2: int,
    y2: int,
) -> bool {
    &&& 0 <= x2 < w
    &&& 0 <= y2
    &&& (y2 < y || (y2 == y && x2 < x))
    &&& is_content(luma, w, tol, x2, y2)
}

/// Scan every pixel and return the tight content bounding box
/// `(left, top, right, bottom)`, half-open on right and bottom; for a
/// pure-background image, the full (clamped) image bounds.
pub fn bounding_box(luma: &Vec<u8>, w: u32, h: u32, tol: u8) -> (r: (u32, u32, u32, u32))
    requires
        w >= 1,
        h >= 1,
        luma@.len() == w * h,
    ensures
        valid_content_box(
            luma@,
            w as nat,
            h as nat,
            tol,
            r.0 as int,
            r.1 as int,
            r.2 as int,
            r.3 as int,
        ),
{
    let total: usize = luma.len();
    let threshold: u8 = 255 - tol;
    let mut found = false;
    let mut l: u32 = 0;
    let mut rr: u32 = 0;
    let mut tt: u32 = 0;
    let mut bb: u32 = 0;
    let mut y: u32 = 0;
    while y < h
        invariant
            w >= 1,
            h >= 1,
            luma@.len() == w * h,
            total == luma@.len(),
            threshold == 255 - tol,
            y <= h,
            !found ==> forall|x2: int, y2: int|
                !#[trigger] content_before(luma@, w as nat, tol, y as int, 0, x2, y2),
            found ==> {
                &&& l <= rr < w
                &&& tt <= bb < h
                &&& bb < y
                &&& forall|x2: int, y2: int|
                    #[trigger] content_before(luma@, w as nat, tol, y as int, 0, x2, y2)
                        ==> l <= x2 <= rr && tt <= y2 <= bb
                &&& exists|y2: int|
                    #[trigger] content_before(luma@, w as nat, tol, y as int, 0, l as int, y2)
                &&& exists|y2: int|
                    #[trigger] content_before(luma@, w as nat, tol, y as int, 0, rr as int, y2)
                &&& exists|x2: int|
                    #[trigger] content_before(luma@, w as nat, tol, y as int, 0, x2, tt as int)
                &&& exists|x2: int|
                    #[trigger] content_before(luma@, w as nat, tol, y as int, 0, x2, bb as int)
            },
        decreases h - y,
    {
        let mut x: u32 = 0;
        while x < w
            invariant
                w >= 1,
                h >= 1,
                luma@.len() == w * h,
                total == luma@.len(),
                threshold == 255 - tol,
                y < h,
                x <= w,
                !found ==> forall|x2: int, y2: int|
                    !#[trigger] content_before(luma@, w as nat, tol, y as int, x as int, x2, y2),
                found ==> {
                    &&& l <= rr < w
                    &&& tt <= bb < h
                    &&& bb <= y
                    &&& forall|x2: int, y2: int|
                        #[trigger] content_before(luma@, w as nat, tol, y as int, x as int, x2, y2)
                            ==> l <= x2 <= rr && tt <= y2 <= bb
                    &&& exists|y2: int|
                        #[trigger] content_before(
                            luma@,
                            w as nat,
                            tol,
                            y as int,
                            x as int,
                            l as int,
                            y2,
                        )
                    &&& exists|y2: int|
                        #[trigger] content_before(
                            luma@,
                            w as nat,
                            tol,
                            y as int,
                            x as int,
                            rr as int,
                            y2,
                        )
                    &&& exists|x2: int|
                        #[trigger] content_before(
                            luma@,
                            w as nat,
                            tol,
                            y as int,
                            x as int,
                            x2,
                            tt as int,
                        )
                    &&& exists|x2: int|
                        #[trigger] content_before(
                            luma@,
                            w as nat,
                            tol,
                            y as int,
                            x as int,
                            x2,
                            bb as int,
                        )
                },
            decreases w - x,
        {
            proof {
                lemma_rowmajor_bound(w as nat, h as nat, x as int, y as int);
                assert((y as int) * (w as int) + (x as int) < luma@.len());
            }
            let idx: usize = (y as usize) * (w as usize) + (x as usize);
            let px = luma[idx];
            let ghost oldl = l;
            let ghost oldrr = rr;
            let ghost oldtt = tt;
            let ghost oldbb = bb;
            let ghost oldfound = found;
            let content = px < threshold;
            if content {
                if !found {
                    found = true;
                    l = x;
                    rr = x;
                    tt = y;
                    bb = y;
                } else {
                    if x < l {
                        l = x;
                    }
                    if x > rr {
                        rr = x;
                    }
                    bb = y;
                }
            }
            x = x + 1;
            proof {
                let ghost xp = x as int - 1;
                assert(content == is_content(luma@, w as nat, tol, xp, y as int));
                assert forall|x2: int, y2: int|
                    #[trigger] content_before(luma@, w as nat, tol, y as int, x as int, x2, y2)
                        implies content_before(luma@, w as nat, tol, y as int, xp, x2, y2) || (
                    x2 == xp && y2 == y as int && is_content(luma@, w as nat, tol, x2, y2)) by {}
                if found {
                    if oldfound {
                        assert forall|x2: int, y2: int|
                            #[trigger] content_before(
                                luma@,
                                w as nat,
                                tol,
                                y as int,
                                x as int,
                                x2,
                                y2,
                            ) implies l <= x2 <= rr && tt <= y2 <= bb by {
                            if content_before(luma@, w as nat, tol, y as int, xp, x2, y2) {
                                assert(oldl <= x2 <= oldrr && oldtt <= y2 <= oldbb);
                            }
                        }
                        if l == oldl {
                            let y2l = choose|y2: int|
                                content_before(luma@, w as nat, tol, y as int, xp, oldl as int, y2);
                            assert(content_before(
                                luma@, w as nat, tol, y as int, x as int, l as int, y2l,
                            ));
                        } else {
                            assert(l == xp && content);
                            assert(content_before(
                                luma@, w as nat, tol, y as int, x as int, l as int, y as int,
                            ));
                        }
                        if rr == oldrr {
                            let y2r = choose|y2: int|
                                content_before(luma@, w as nat, tol, y as int, xp, oldrr as int, y2);
                            assert(content_before(
                                luma@, w as nat, tol, y as int, x as int, rr as int, y2r,
                            ));
                        } else {
                            assert(rr == xp && content);
                            assert(content_before(
                                luma@, w as nat, tol, y as int, x as int, rr as int, y as int,
                            ));
                        }
                        let x2t = choose|x2: int|
                            content_before(luma@, w as nat, tol, y as int, xp, x2, oldtt as int);
                        assert(content_before(
                            luma@, w as nat, tol, y as int, x as int, x2t, tt as int,
                        ));
                        if bb == oldbb {
                            let x2b = choose|x2: int|
                                content_before(luma@, w as nat, tol, y as int, xp, x2, oldbb as int);
                            assert(content_before(
                                luma@, w as nat, tol, y as int, x as int, x2b, bb as int,
                            ));
                        } else {
                            assert(bb == y && content);
                            assert(content_before(
                                luma@, w as nat, tol, y as int, x as int, xp, bb as int,
                            ));
                        }
                    } else {
                        assert(content && l == xp && rr == xp && tt == y && bb == y);
                        assert(content_before(
                            luma@, w as nat, tol, y as int, x as int, xp, y as int,
                        ));
                        assert forall|x2: int, y2: int|
                            #[trigger] content_before(
                                luma@,
                                w as nat,
                                tol,
                                y as int,
                                x as int,
                                x2,
                                y2,
                            ) implies l <= x2 <= rr && tt <= y2 <= bb by {
                            if content_before(luma@, w as nat, tol, y as int, xp, x2, y2) {
                                assert(false);
                            }
                        }
                    }
                } else {
                    assert(!content);
                    assert forall|x2: int, y2: int|
                        !#[trigger] content_before(
                            luma@,
                            w as nat,
                            tol,
                            y as int,
                            x as int,
                            x2,
                            y2,
                        ) by {
                        if content_before(luma@, w as nat, tol, y as int, x as int, x2, y2) {
                            if content_before(luma@, w as nat, tol, y as int, xp, x2, y2) {
                                assert(false);
                            } else {
                                assert(x2 == xp && y2 == y as int);
                                assert(false);
                            }
                        }
                    }
                }
            }
        }
        y = y + 1;
        proof {
            let ghost yp = y as int - 1;
            if found {
                let y2l = choose|y2: int|
                    content_before(luma@, w as nat, tol, yp, w as int, l as int, y2);
                assert(content_before(luma@, w as nat, tol, y as int, 0, l as int, y2l));
                let y2r = choose|y2: int|
                    content_before(luma@, w as nat, tol, yp, w as int, rr as int, y2);
                assert(content_before(luma@, w as nat, tol, y as int, 0, rr as int, y2r));
                let x2t = choose|x2: int|
                    content_before(luma@, w as nat, tol, yp, w as int, x2, tt as int);
                assert(content_before(luma@, w as nat, tol, y as int, 0, x2t, tt as int));
                let x2b = choose|x2: int|
                    content_before(luma@, w as nat, tol, yp, w as int, x2, bb as int);
                assert(content_before(luma@, w as nat, tol, y as int, 0, x2b, bb as int));
                assert forall|x2: int, y2: int|
                    #[trigger] content_before(luma@, w as nat, tol, y as int, 0, x2, y2) implies l
                    <= x2 <= rr && tt <= y2 <= bb by {
                    assert(content_before(luma@, w as nat, tol, yp, w as int, x2, y2));
                }
            } else {
                assert forall|x2: int, y2: int|
                    !#[trigger] content_before(luma@, w as nat, tol, y as int, 0, x2, y2) by {
                    if content_before(luma@, w as nat, tol, y as int, 0, x2, y2) {
                        assert(content_before(luma@, w as nat, tol, yp, w as int, x2, y2));
                    }
                }
            }
        }
    }
    if found {
        proof {
            let y2l = choose|y2: int|
                content_before(luma@, w as nat, tol, h as int, 0, l as int, y2);
            assert(0 <= y2l < h && is_content(luma@, w as nat, tol, l as int, y2l));
            let y2r = choose|y2: int|
                content_before(luma@, w as nat, tol, h as int, 0, rr as int, y2);
            assert(0 <= y2r < h && is_content(luma@, w as nat, tol, rr as int, y2r));
            let x2t = choose|x2: int|
                content_before(luma@, w as nat, tol, h as int, 0, x2, tt as int);
            assert(0 <= x2t < w && is_content(luma@, w as nat, tol, x2t, tt as int));
            let x2b = choose|x2: int|
                content_before(luma@, w as nat, tol, h as int, 0, x2, bb as int);
            assert(0 <= x2b < w && is_content(luma@, w as nat, tol, x2b, bb as int));
            assert(has_content(luma@, w as nat, h as nat, tol));
            assert forall|x2: int, y2: int|
                0 <= x2 < w && 0 <= y2 < h && #[trigger] is_content(
                    luma@,
                    w as nat,
                    tol,
                    x2,
                    y2,
                ) implies l <= x2 <= rr && tt <= y2 <= bb by {
                assert(content_before(luma@, w as nat, tol, h as int, 0, x2, y2));
            }
        }
        let r2: u32 = rr + 1;
        let r3: u32 = bb + 1;
        proof {
            let y2r = choose|y2: int|
                content_before(luma@, w as nat, tol, h as int, 0, rr as int, y2);
            assert(r2 as int - 1 == rr as int);
            assert(0 <= y2r < h && is_content(luma@, w as nat, tol, r2 as int - 1, y2r));
            let x2b = choose|x2: int|
                content_before(luma@, w as nat, tol, h as int, 0, x2, bb as int);
            assert(r3 as int - 1 == bb as int);
            assert(0 <= x2b < w && is_content(luma@, w as nat, tol, x2b, r3 as int - 1));
        }
        (l, tt, r2, r3)
    } else {
        proof {
            if has_content(luma@, w as nat, h as nat, tol) {
                let (x2, y2) = choose|x2: int, y2: int|
                    0 <= x2 < w && 0 <= y2 < h && #[trigger] is_content(
                        luma@,
                        w as nat,
                        tol,
                        x2,
                        y2,
                    );
                assert(content_before(luma@, w as nat, tol, h as int, 0, x2, y2));
            }
        }
        (0, 0, w, h)
    }
}

} // verus!

use vstd::prelude::*;
use crate::geometry::{area2, area2_spec, Point};

verus! {

/// The lower of the two bound indices: every collapse of the funnel raises it.
pub open spec fn low_bound(left: int, right: int) -> int {
    if left <= right { left } else { right }
}

/// The via-points that the funnel produces from the state `apex`, `left`,
/// `right`, `i`: `left` and `right` index the portals bounding the funnel, `i`
/// is the next portal to scan. Scanning stops when `i` leaves the channel.
///
/// A new left endpoint outside the right bound collapses the funnel on the
/// right: the right bound becomes a via-point and the new apex. A new right
/// endpoint outside the left bound collapses it on the left in the same way.
/// Either way both bounds restart at the portal after the committed one and
/// scanning two portals further on. Otherwise each new endpoint that lies
/// inside the funnel narrows its own side.
pub open spec fn funnel(ch: Seq<[Point; 2]>, apex: Point, left: int, right: int, i: int) -> Seq<Point>
    decreases ch.len() - low_bound(left, right), ch.len() + 4 - i,
{
    if !(0 <= left < i && 0 <= right < i && i < ch.len()) {
        Seq::empty()
    } else {
        let l = ch[left][0];
        let r = ch[right][1];
        let p = ch[i];
        if area2_spec(apex, p[0], r) < 0 {
            seq![r] + funnel(ch, r, right + 1, right + 1, right + 3)
        } else if area2_spec(apex, l, p[1]) < 0 {
            seq![l] + funnel(ch, l, left + 1, left + 1, left + 3)
        } else {
            let left2 = if area2_spec(apex, l, p[0]) >= 0 { i } else { left };
            let right2 = if area2_spec(apex, p[1], r) >= 0 { i } else { right };
            funnel(ch, apex, left2, right2, i + 1)
        }
    }
}

/// The via-points of the taut path from `start` through the channel `ch`.
pub open spec fn refined(start: Point, ch: Seq<[Point; 2]>) -> Seq<Point> {
    funnel(ch, start, 0, 0, 1)
}

/// `p` is an endpoint of one of the portals of `ch` but the last.
pub open spec fn is_inner_vertex(ch: Seq<[Point; 2]>, p: Point) -> bool {
    exists|j: int| 0 <= j < ch.len() - 1 && ((#[trigger] ch[j])[0] == p || ch[j][1] == p)
}

/// Funnel refinement (string pulling): collapses a channel of portals into the
/// via-points of a taut path from `start`. The start point is not part of the
/// result, and neither is the goal that the channel's last portal stands for.
pub fn refine_path(start: &Point, channel: &[[Point; 2]]) -> (r: Vec<Point>)
    requires
        channel@.len() <= usize::MAX - 4,
    ensures
        r@ == refined(*start, channel@),
{
    let ghost ch = channel@;
    let mut apex: Point = *start;
    let mut left_index: usize = 0;
    let mut right_index: usize = 0;
    let mut i: usize = 1;
    let mut result: Vec<Point> = Vec::new();
    while i < channel.len()
        invariant
            ch == channel@,
            ch.len() <= usize::MAX - 4,
            left_index < i,
            right_index < i,
            i <= ch.len() + 3,
            result@ + funnel(ch, apex, left_index as int, right_index as int, i as int)
                == refined(*start, ch),
        decreases ch.len() - low_bound(left_index as int, right_index as int), ch.len() + 4 - i,
    {
        let portal = channel[i];
        let left = channel[left_index][0];
        let right = channel[right_index][1];
        if area2(&apex, &portal[0], &right) < 0 {
            // The new left endpoint lies outside the right bound.
            let ghost before = result@;
            apex = right;
            result.push(apex);
            right_index = right_index + 1;
            left_index = right_index;
            i = right_index + 2;
            assert(before + (seq![apex] + funnel(ch, apex, left_index as int, right_index as int, i as int))
                =~= result@ + funnel(ch, apex, left_index as int, right_index as int, i as int));
            continue;
        }
        if area2(&apex, &left, &portal[1]) < 0 {
            // The new right endpoint lies outside the left bound.
            let ghost before = result@;
            apex = left;
            result.push(apex);
            left_index = left_index + 1;
            right_index = left_index;
            i = left_index + 2;
            assert(before + (seq![apex] + funnel(ch, apex, left_index as int, right_index as int, i as int))
                =~= result@ + funnel(ch, apex, left_index as int, right_index as int, i as int));
            continue;
        }
        if area2(&apex, &left, &portal[0]) >= 0 {
            left_index = i;
        }
        if area2(&apex, &portal[1], &right) >= 0 {
            right_index = i;
        }
        i += 1;
    }
    assert(funnel(ch, apex, left_index as int, right_index as int, i as int) =~= Seq::empty());
    assert(result@ =~= refined(*start, ch));
    result
}

/// Every via-point that the funnel commits is an endpoint of a portal of the
/// channel other than the last one; the final degenerate portal never becomes
/// a via-point.
pub proof fn lemma_funnel_vertices(ch: Seq<[Point; 2]>, apex: Point, left: int, right: int, i: int)
    ensures
        forall|k: int|
            0 <= k < funnel(ch, apex, left, right, i).len() ==> is_inner_vertex(
                ch,
                #[trigger] funnel(ch, apex, left, right, i)[k],
            ),
    decreases ch.len() - low_bound(left, right), ch.len() + 4 - i,
{
    if 0 <= left < i && 0 <= right < i && i < ch.len() {
        let l = ch[left][0];
        let r = ch[right][1];
        let p = ch[i];
        let out = funnel(ch, apex, left, right, i);
        if area2_spec(apex, p[0], r) < 0 {
            let rest = funnel(ch, r, right + 1, right + 1, right + 3);
            lemma_funnel_vertices(ch, r, right + 1, right + 1, right + 3);
            assert(out == seq![r] + rest);
            assert forall|k: int| 0 <= k < out.len() implies is_inner_vertex(ch, #[trigger] out[k]) by {
                if k == 0 {
                    assert(ch[right][1] == out[k]);
                } else {
                    assert(out[k] == rest[k - 1]);
                }
            }
        } else if area2_spec(apex, l, p[1]) < 0 {
            let rest = funnel(ch, l, left + 1, left + 1, left + 3);
            lemma_funnel_vertices(ch, l, left + 1, left + 1, left + 3);
            assert(out == seq![l] + rest);
            assert forall|k: int| 0 <= k < out.len() implies is_inner_vertex(ch, #[trigger] out[k]) by {
                if k == 0 {
                    assert(ch[left][0] == out[k]);
                } else {
                    assert(out[k] == rest[k - 1]);
                }
            }
        } else {
            let left2 = if area2_spec(apex, l, p[0]) >= 0 { i } else { left };
            let right2 = if area2_spec(apex, p[1], r) >= 0 { i } else { right };
            lemma_funnel_vertices(ch, apex, left2, right2, i + 1);
            assert(out == funnel(ch, apex, left2, right2, i + 1));
        }
    }
}

/// Each collapse commits one via-point and raises the lower bound index, which
/// stays below the channel's last portal: the funnel commits fewer via-points
/// than the channel has portals.
pub proof fn lemma_funnel_len(ch: Seq<[Point; 2]>, apex: Point, left: int, right: int, i: int)
    requires
        0 <= low_bound(left, right) <= ch.len() - 1,
    ensures
        funnel(ch, apex, left, right, i).len() + low_bound(left, right) <= ch.len() - 1,
    decreases ch.len() - low_bound(left, right), ch.len() + 4 - i,
{
    if 0 <= left < i && 0 <= right < i && i < ch.len() {
        let l = ch[left][0];
        let r = ch[right][1];
        let p = ch[i];
        if area2_spec(apex, p[0], r) < 0 {
            lemma_funnel_len(ch, r, right + 1, right + 1, right + 3);
        } else if area2_spec(apex, l, p[1]) < 0 {
            lemma_funnel_len(ch, l, left + 1, left + 1, left + 3);
        } else {
            let left2 = if area2_spec(apex, l, p[0]) >= 0 { i } else { left };
            let right2 = if area2_spec(apex, p[1], r) >= 0 { i } else { right };
            lemma_funnel_len(ch, apex, left2, right2, i + 1);
        }
    }
}

} // verus!

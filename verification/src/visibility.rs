//! Decisions of the per-pixel visibility pass.
//!
//! Positions along a ray are given as signed integers. Any encoding of ray parameters will do
//! that keeps their order and gives zero to the ray's origin: the decisions made here only
//! compare parameters with each other and with zero.

use vstd::prelude::*;

verus! {

/// What a ray meets of one sphere: the two parameters at which it crosses the surface, or
/// `None` where it misses the sphere.
pub type Roots = Option<(i64, i64)>;

/// The parameter at which a sphere is seen along a ray, if it is seen at all. A ray that
/// misses the sphere or only grazes it (both roots equal) sees nothing of it. Otherwise the
/// smaller root is the near side of the sphere, which is seen unless it lies behind the origin.
pub open spec fn visible(roots: Roots) -> Option<i64> {
    match roots {
        None => None,
        Some((t0, t1)) => {
            let near = if t0 <= t1 {
                t0
            } else {
                t1
            };
            if t0 == t1 || near < 0 {
                None
            } else {
                Some(near)
            }
        },
    }
}

/// Whether sphere `k` is the one a ray shows, at parameter `t`: it is seen at `t`, no sphere is
/// seen nearer, and of the spheres seen at `t` it comes first in the list.
pub open spec fn is_nearest(hits: Seq<Roots>, k: int, t: i64) -> bool {
    &&& 0 <= k < hits.len()
    &&& visible(hits[k]) == Some(t)
    &&& forall|j: int|
        0 <= j < hits.len() && visible(#[trigger] hits[j]).is_some() ==> t <= visible(
            hits[j],
        ).unwrap()
    &&& forall|j: int| 0 <= j < k ==> visible(#[trigger] hits[j]) != Some(t)
}

/// Whether a ray shows no sphere at all.
pub open spec fn none_visible(hits: Seq<Roots>) -> bool {
    forall|j: int| 0 <= j < hits.len() ==> visible(#[trigger] hits[j]).is_none()
}

/// Whether a sphere that a shadow ray meets as `probe` stands in the light's way: one of the
/// crossings lies ahead of the surface point.
pub open spec fn occludes(probe: Roots) -> bool {
    match probe {
        None => false,
        Some((p0, p1)) => p0 > 0 || p1 > 0,
    }
}

/// Whether the surface point on sphere `hit` lies in shadow: some other sphere stands in the
/// light's way. The sphere that was hit is left out by its position in the list.
pub open spec fn shadowed(probes: Seq<Roots>, hit: int) -> bool {
    exists|j: int| 0 <= j < probes.len() && j != hit && occludes(#[trigger] probes[j])
}

/// Where entry `i` of a list stands once entry `removed` is taken out.
pub open spec fn shifted(i: int, removed: int) -> int {
    if i < removed {
        i
    } else {
        i - 1
    }
}

/// The parameter at which a sphere is seen, if it is seen.
pub fn visible_param(roots: Roots) -> (seen: Option<i64>)
    ensures
        seen == visible(roots),
{
    match roots {
        None => None,
        Some((t0, t1)) => {
            if t0 == t1 {
                return None;
            }
            let near: i64 = if t0 < t1 {
                t0
            } else {
                t1
            };
            if near < 0 {
                None
            } else {
                Some(near)
            }
        },
    }
}

/// The sphere that a ray shows and the parameter at which it is seen, given what the ray
/// meets of each sphere in list order; `None` where it shows none.
pub fn nearest_hit(hits: &[Roots]) -> (best: Option<(usize, i64)>)
    ensures
        best.is_none() <==> none_visible(hits@),
        best.is_some() ==> is_nearest(hits@, best.unwrap().0 as int, best.unwrap().1),
{
    let mut best: Option<(usize, i64)> = None;
    let mut i: usize = 0;
    while i < hits.len()
        invariant
            i <= hits.len(),
            best.is_none() <==> none_visible(hits@.take(i as int)),
            best.is_some() ==> is_nearest(
                hits@.take(i as int),
                best.unwrap().0 as int,
                best.unwrap().1,
            ),
        decreases hits.len() - i,
    {
        let ghost seen_so_far = hits@.take(i as int);
        let ghost seen_next = hits@.take(i + 1);
        proof {
            assert(seen_next.len() == i + 1);
            assert(seen_next[i as int] == hits@[i as int]);
            assert forall|j: int| 0 <= j < i implies seen_next[j] == seen_so_far[j] by {}
        }
        match visible_param(hits[i]) {
            None => {
                proof {
                    if best.is_none() {
                        assert(none_visible(seen_next));
                    } else {
                        assert(visible(seen_next[best.unwrap().0 as int]).is_some());
                    }
                }
            },
            Some(t) => {
                let closer: bool = match best {
                    None => true,
                    Some((_, u)) => t < u,
                };
                if closer {
                    best = Some((i, t));
                }
                proof {
                    assert(visible(seen_next[best.unwrap().0 as int]).is_some());
                }
            },
        }
        i += 1;
    }
    proof {
        assert(hits@.take(i as int) =~= hits@);
    }
    best
}

/// Whether the surface point on sphere `hit` lies in shadow, given what the shadow ray cast
/// from it towards the light meets of each sphere in list order.
pub fn in_shadow(probes: &[Roots], hit: usize) -> (dark: bool)
    ensures
        dark == shadowed(probes@, hit as int),
{
    let mut dark: bool = false;
    let mut j: usize = 0;
    while j < probes.len()
        invariant
            j <= probes.len(),
            dark == shadowed(probes@.take(j as int), hit as int),
        decreases probes.len() - j,
    {
        let ghost tested = probes@.take(j as int);
        let ghost tested_next = probes@.take(j + 1);
        proof {
            assert(tested_next.len() == j + 1);
            assert forall|k: int| 0 <= k < j implies tested_next[k] == tested[k] by {}
        }
        if j != hit {
            match probes[j] {
                Some((p0, p1)) => {
                    if p0 > 0 || p1 > 0 {
                        dark = true;
                    }
                },
                None => {},
            }
        }
        proof {
            if shadowed(tested, hit as int) {
                let k = choose|k: int|
                    0 <= k < tested.len() && k != hit && occludes(#[trigger] tested[k]);
                assert(occludes(tested_next[k]));
            }
            if j != hit && occludes(probes@[j as int]) {
                assert(occludes(tested_next[j as int]));
            }
            if shadowed(tested_next, hit as int) {
                let k = choose|k: int|
                    0 <= k < tested_next.len() && k != hit && occludes(#[trigger] tested_next[k]);
                if k < j {
                    assert(occludes(tested[k]));
                }
            }
        }
        j += 1;
    }
    proof {
        assert(probes@.take(j as int) =~= probes@);
    }
    dark
}

/// The colour of the surface point on sphere `hit`: `lit` where the light reaches it, `dark`
/// where another sphere stands in the light's way.
pub fn surface_color<T>(probes: &[Roots], hit: usize, lit: T, dark: T) -> (color: T)
    ensures
        color == if shadowed(probes@, hit as int) {
            dark
        } else {
            lit
        },
{
    if in_shadow(probes, hit) {
        dark
    } else {
        lit
    }
}

/// What a pixel shows, given what its ray meets of each sphere. Where the ray shows no
/// sphere, the answer is `None` and the pixel keeps its background. Where it shows sphere `k`
/// at parameter `t`, `light` is asked once, for `(k, t)`, what the shadow ray cast from that
/// surface point meets of each sphere and what colour the point has in the light; the answer
/// is that colour, or `dark` where the point lies in shadow.
pub fn resolve<T, F: Fn(usize, i64) -> (Vec<Roots>, T)>(hits: &[Roots], light: F, dark: T) -> (color:
    Option<T>)
    requires
        forall|k: usize, t: i64| is_nearest(hits@, k as int, t) ==> call_requires(light, (k, t)),
    ensures
        resolved(hits@, light, dark, color),
{
    match nearest_hit(hits) {
        None => None,
        Some((k, t)) => {
            let (probes, lit) = light(k, t);
            let color = surface_color(probes.as_slice(), k, lit, dark);
            proof {
                assert(call_ensures(light, (k, t), (probes, lit)));
                assert(visible(hits@[k as int]).is_some());
            }
            Some(color)
        },
    }
}

/// What `resolve` answers: nothing where no sphere is seen, else the colour of the surface
/// point on the nearest sphere, as `light` gave it or `dark` where `light` found it in shadow.
pub open spec fn resolved<T, F: Fn(usize, i64) -> (Vec<Roots>, T)>(
    hits: Seq<Roots>,
    light: F,
    dark: T,
    color: Option<T>,
) -> bool {
    if none_visible(hits) {
        color.is_none()
    } else {
        exists|k: usize, t: i64, probes: Vec<Roots>, lit: T|
            {
                &&& is_nearest(hits, k as int, t)
                &&& #[trigger] call_ensures(light, (k, t), (probes, lit))
                &&& color == Some(
                    if shadowed(probes@, k as int) {
                        dark
                    } else {
                        lit
                    },
                )
            }
    }
}

/// A ray shows at most one sphere: two answers that both qualify as the nearest are equal.
pub proof fn lemma_nearest_unique(hits: Seq<Roots>, k1: int, t1: i64, k2: int, t2: i64)
    requires
        is_nearest(hits, k1, t1),
        is_nearest(hits, k2, t2),
    ensures
        k1 == k2,
        t1 == t2,
{
    assert(visible(hits[k1]).is_some());
    assert(visible(hits[k2]).is_some());
    assert(t1 == t2);
    if k1 < k2 {
        assert(visible(hits[k1]) != Some(t2));
    }
    if k2 < k1 {
        assert(visible(hits[k2]) != Some(t1));
    }
}

/// A ray shows a sphere exactly when it sees at least one.
pub proof fn lemma_nearest_exists(hits: Seq<Roots>)
    ensures
        none_visible(hits) <==> !exists|k: int, t: i64| is_nearest(hits, k, t),
{
    if none_visible(hits) {
        assert forall|k: int, t: i64| !is_nearest(hits, k, t) by {
            if 0 <= k < hits.len() {
                assert(visible(hits[k]).is_none());
            }
        }
    } else {
        lemma_first_minimum(hits, hits.len() as int);
        assert(hits.take(hits.len() as int) =~= hits);
    }
}

/// Among the first `n` spheres, if any is seen, one is seen nearest and first.
proof fn lemma_first_minimum(hits: Seq<Roots>, n: int)
    requires
        0 <= n <= hits.len(),
    ensures
        none_visible(hits.take(n)) || exists|k: int, t: i64| is_nearest(hits.take(n), k, t),
    decreases n,
{
    let seen = hits.take(n);
    if n == 0 {
        assert(none_visible(seen));
    } else {
        let earlier = hits.take(n - 1);
        lemma_first_minimum(hits, n - 1);
        assert forall|j: int| 0 <= j < n - 1 implies seen[j] == earlier[j] by {}
        match visible(hits[n - 1]) {
            None => {
                if none_visible(earlier) {
                    assert(none_visible(seen));
                } else {
                    let (k, t) = choose|k: int, t: i64| is_nearest(earlier, k, t);
                    assert(visible(seen[k]).is_some());
                    assert(is_nearest(seen, k, t));
                }
            },
            Some(u) => {
                if none_visible(earlier) {
                    assert(is_nearest(seen, n - 1, u));
                } else {
                    let (k, t) = choose|k: int, t: i64| is_nearest(earlier, k, t);
                    assert(visible(seen[k]).is_some());
                    if u < t {
                        assert(is_nearest(seen, n - 1, u));
                    } else {
                        assert(is_nearest(seen, k, t));
                    }
                }
            },
        }
    }
}

/// Of two spheres seen along one ray, the farther one is never the one shown: the sphere
/// shown is seen no farther than the nearer of the two. Where the list holds only these two,
/// the nearer one is shown.
pub proof fn lemma_nearer_wins(hits: Seq<Roots>, near: int, far: int, k: int, t: i64)
    requires
        0 <= near < hits.len(),
        0 <= far < hits.len(),
        visible(hits[near]).is_some(),
        visible(hits[far]).is_some(),
        visible(hits[near]).unwrap() < visible(hits[far]).unwrap(),
        is_nearest(hits, k, t),
    ensures
        k != far,
        t <= visible(hits[near]).unwrap(),
        hits.len() == 2 ==> k == near,
{
}

/// Of several spheres seen at the same parameter, the one that comes first in the list is
/// shown.
pub proof fn lemma_first_of_equals_wins(hits: Seq<Roots>, first: int, later: int, k: int, t: i64)
    requires
        0 <= first < later < hits.len(),
        visible(hits[first]).is_some(),
        visible(hits[first]) == visible(hits[later]),
        is_nearest(hits, k, t),
    ensures
        k != later,
{
}

/// A sphere that stands in the light's way puts the surface point of any other sphere in
/// shadow.
pub proof fn lemma_occluder_casts_shadow(probes: Seq<Roots>, hit: int, occluder: int)
    requires
        0 <= occluder < probes.len(),
        occluder != hit,
        occludes(probes[occluder]),
    ensures
        shadowed(probes, hit),
{
}

/// Taking a sphere out of the scene (and with it its entry in the list) leaves the surface
/// point in shadow exactly when one of the remaining other spheres stands in the light's way.
/// So where the sphere taken out was the only one in the way, the point is lit without it.
pub proof fn lemma_shadow_without(probes: Seq<Roots>, hit: int, removed: int)
    requires
        0 <= hit < probes.len(),
        0 <= removed < probes.len(),
        removed != hit,
    ensures
        shadowed(probes.remove(removed), shifted(hit, removed)) <==> exists|j: int|
            0 <= j < probes.len() && j != hit && j != removed && occludes(#[trigger] probes[j]),
{
    let rest = probes.remove(removed);
    let at = shifted(hit, removed);
    if shadowed(rest, at) {
        let j = choose|j: int| 0 <= j < rest.len() && j != at && occludes(#[trigger] rest[j]);
        let orig = if j < removed {
            j
        } else {
            j + 1
        };
        assert(rest[j] == probes[orig]);
        assert(occludes(probes[orig]));
    }
    if exists|j: int|
        0 <= j < probes.len() && j != hit && j != removed && occludes(#[trigger] probes[j]) {
        let j = choose|j: int|
            0 <= j < probes.len() && j != hit && j != removed && occludes(#[trigger] probes[j]);
        let moved = shifted(j, removed);
        assert(rest[moved] == probes[j]);
        assert(occludes(rest[moved]));
    }
}

} // verus!

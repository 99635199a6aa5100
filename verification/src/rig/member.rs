//! The weakest catalog-rated component along a member.
use vstd::prelude::*;
use super::component::{ComponentTag, tag_label, tag_wll};

verus! {

/// Catalog rating that governs a member, naming the segment it came from.
#[derive(Debug, Clone)]
pub struct MinRating {
    pub wll_lbs: u32,
    pub segment_index: usize,
    pub component_index: usize,
    pub label: String,
}

/// Component `c` of segment `s` exists and has a catalog rating.
pub open spec fn rated_at(segs: Seq<Vec<ComponentTag>>, s: int, c: int) -> bool {
    0 <= s < segs.len() && 0 <= c < segs[s]@.len() && tag_wll(segs[s]@[c]) is Some
}

/// The catalog rating of component `c` of segment `s`.
pub open spec fn wll_at(segs: Seq<Vec<ComponentTag>>, s: int, c: int) -> u32 {
    tag_wll(segs[s]@[c])->0
}

/// Position `(s1, c1)` comes before `(s2, c2)` walking the member top to bottom.
pub open spec fn comes_before(s1: int, c1: int, s2: int, c2: int) -> bool {
    s1 < s2 || (s1 == s2 && c1 < c2)
}

/// `m` names the lowest rating on the member, at its first occurrence.
pub open spec fn is_min_rating(segs: Seq<Vec<ComponentTag>>, m: MinRating) -> bool {
    let s = m.segment_index as int;
    let c = m.component_index as int;
    &&& rated_at(segs, s, c)
    &&& m.wll_lbs == wll_at(segs, s, c)
    &&& m.label@ == tag_label(segs[s]@[c])
    &&& forall|s2: int, c2: int| #[trigger] rated_at(segs, s2, c2) ==> wll_at(segs, s2, c2) >= m.wll_lbs
    &&& forall|s2: int, c2: int|
        #[trigger] rated_at(segs, s2, c2) && comes_before(s2, c2, s, c) ==> wll_at(segs, s2, c2)
            > m.wll_lbs
}

/// Lowest catalog WLL on a member's segments, and the segment it came from.
/// Among equal ratings the first one (top to bottom) is named.
pub fn min_rating(segments: &Vec<Vec<ComponentTag>>) -> (r: Option<MinRating>)
    ensures
        match r {
            None => forall|s: int, c: int| !#[trigger] rated_at(segments@, s, c),
            Some(m) => is_min_rating(segments@, m),
        },
{
    let ghost segs = segments@;
    let mut best: Option<MinRating> = None;
    let mut si: usize = 0;
    while si < segments.len()
        invariant
            segs == segments@,
            si <= segs.len(),
            match best {
                None => forall|s: int, c: int| #[trigger] rated_at(segs, s, c) ==> s >= si,
                Some(m) => {
                    &&& rated_at(segs, m.segment_index as int, m.component_index as int)
                    &&& m.segment_index < si
                    &&& m.wll_lbs == wll_at(segs, m.segment_index as int, m.component_index as int)
                    &&& m.label@ == tag_label(segs[m.segment_index as int]@[m.component_index as int])
                    &&& forall|s2: int, c2: int| #[trigger] rated_at(segs, s2, c2) && s2 < si
                        ==> wll_at(segs, s2, c2) >= m.wll_lbs
                    &&& forall|s2: int, c2: int|
                        #[trigger] rated_at(segs, s2, c2) && comes_before(
                            s2,
                            c2,
                            m.segment_index as int,
                            m.component_index as int,
                        ) ==> wll_at(segs, s2, c2) > m.wll_lbs
                },
            },
        decreases segs.len() - si,
    {
        let seg = &segments[si];
        let mut ci: usize = 0;
        while ci < seg.len()
            invariant
                segs == segments@,
                si < segs.len(),
                seg@ == segs[si as int]@,
                ci <= seg@.len(),
                match best {
                    None => forall|s: int, c: int| #[trigger] rated_at(segs, s, c) ==> comes_before(
                        si as int,
                        ci as int - 1,
                        s,
                        c,
                    ),
                    Some(m) => {
                        &&& rated_at(segs, m.segment_index as int, m.component_index as int)
                        &&& comes_before(
                            m.segment_index as int,
                            m.component_index as int,
                            si as int,
                            ci as int,
                        )
                        &&& m.wll_lbs == wll_at(segs, m.segment_index as int, m.component_index as int)
                        &&& m.label@ == tag_label(
                            segs[m.segment_index as int]@[m.component_index as int],
                        )
                        &&& forall|s2: int, c2: int| #[trigger] rated_at(segs, s2, c2) && comes_before(
                            s2,
                            c2,
                            si as int,
                            ci as int,
                        ) ==> wll_at(segs, s2, c2) >= m.wll_lbs
                        &&& forall|s2: int, c2: int|
                            #[trigger] rated_at(segs, s2, c2) && comes_before(
                                s2,
                                c2,
                                m.segment_index as int,
                                m.component_index as int,
                            ) ==> wll_at(segs, s2, c2) > m.wll_lbs
                    },
                },
            decreases seg@.len() - ci,
        {
            let comp = &seg[ci];
            match comp.catalog_wll_lbs() {
                Some(wll) => {
                    let better = match &best {
                        Some(b) => b.wll_lbs > wll,
                        None => true,
                    };
                    if better {
                        best = Some(
                            MinRating {
                                wll_lbs: wll,
                                segment_index: si,
                                component_index: ci,
                                label: comp.label(),
                            },
                        );
                    }
                },
                None => {},
            }
            ci = ci + 1;
        }
        si = si + 1;
    }
    best
}

} // verus!

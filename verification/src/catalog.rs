//! WSTDA-RS-1 polyester roundsling rated capacities (lbs).
//!
//! Values are representative Table 2-1 ratings. Manufacturer tags may differ:
//! always verify the identification tag for the lift.
use vstd::prelude::*;
use vstd::string::*;
use crate::domain::Hitch;
use crate::text::{decimal, push_decimal};

pub mod connection_hardware;
pub mod shackle;

pub use shackle::{ShackleRating, find_shackle, shackles};

verus! {

/// One catalog entry for a polyester roundsling size.
#[derive(Debug, Clone, Copy)]
pub struct RoundSlingRating {
    pub size: u8,
    pub color: &'static str,
    pub vertical_lbs: u32,
    pub choker_lbs: u32,
    pub basket_vertical_lbs: u32,
    /// Basket hitch WLL at 45 degrees from horizontal (reference).
    pub basket_45_lbs: u32,
    /// Approximate self-weight per foot of sling length, in hundredths of a
    /// pound per foot. Representative endless polyester roundsling values
    /// (Lift-All Tuflex catalog); verify against the sling manufacturer.
    pub weight_centi_lbs_per_ft: u32,
}

/// WSTDA-RS-1 Table 2-1 polyester roundsling ratings, sizes 1 to 13.
pub open spec fn polyester_table() -> Seq<RoundSlingRating> {
    seq![
        RoundSlingRating {
            size: 1,
            color: "Purple",
            vertical_lbs: 2600,
            choker_lbs: 2100,
            basket_vertical_lbs: 5200,
            basket_45_lbs: 3700,
            weight_centi_lbs_per_ft: 44,
        },
        RoundSlingRating {
            size: 2,
            color: "Green",
            vertical_lbs: 5300,
            choker_lbs: 4200,
            basket_vertical_lbs: 10600,
            basket_45_lbs: 7500,
            weight_centi_lbs_per_ft: 63,
        },
        RoundSlingRating {
            size: 3,
            color: "Yellow",
            vertical_lbs: 8400,
            choker_lbs: 6700,
            basket_vertical_lbs: 16800,
            basket_45_lbs: 11900,
            weight_centi_lbs_per_ft: 75,
        },
        RoundSlingRating {
            size: 4,
            color: "Tan",
            vertical_lbs: 10600,
            choker_lbs: 8500,
            basket_vertical_lbs: 21200,
            basket_45_lbs: 15000,
            weight_centi_lbs_per_ft: 88,
        },
        RoundSlingRating {
            size: 5,
            color: "Red",
            vertical_lbs: 13200,
            choker_lbs: 10600,
            basket_vertical_lbs: 26400,
            basket_45_lbs: 18700,
            weight_centi_lbs_per_ft: 100,
        },
        RoundSlingRating {
            size: 6,
            color: "White",
            vertical_lbs: 16800,
            choker_lbs: 13400,
            basket_vertical_lbs: 33600,
            basket_45_lbs: 23800,
            weight_centi_lbs_per_ft: 113,
        },
        RoundSlingRating {
            size: 7,
            color: "Blue",
            vertical_lbs: 21200,
            choker_lbs: 17000,
            basket_vertical_lbs: 42400,
            basket_45_lbs: 30000,
            weight_centi_lbs_per_ft: 119,
        },
        RoundSlingRating {
            size: 8,
            color: "Orange",
            vertical_lbs: 25000,
            choker_lbs: 20000,
            basket_vertical_lbs: 50000,
            basket_45_lbs: 35400,
            weight_centi_lbs_per_ft: 125,
        },
        RoundSlingRating {
            size: 9,
            color: "Orange",
            vertical_lbs: 31000,
            choker_lbs: 24800,
            basket_vertical_lbs: 62000,
            basket_45_lbs: 43800,
            weight_centi_lbs_per_ft: 150,
        },
        RoundSlingRating {
            size: 10,
            color: "Orange",
            vertical_lbs: 40000,
            choker_lbs: 32000,
            basket_vertical_lbs: 80000,
            basket_45_lbs: 56600,
            weight_centi_lbs_per_ft: 162,
        },
        RoundSlingRating {
            size: 11,
            color: "Orange",
            vertical_lbs: 53000,
            choker_lbs: 42400,
            basket_vertical_lbs: 106000,
            basket_45_lbs: 74900,
            weight_centi_lbs_per_ft: 200,
        },
        RoundSlingRating {
            size: 12,
            color: "Orange",
            vertical_lbs: 66000,
            choker_lbs: 52800,
            basket_vertical_lbs: 132000,
            basket_45_lbs: 93000,
            weight_centi_lbs_per_ft: 213,
        },
        RoundSlingRating {
            size: 13,
            color: "Orange",
            vertical_lbs: 90000,
            choker_lbs: 72000,
            basket_vertical_lbs: 180000,
            basket_45_lbs: 127300,
            weight_centi_lbs_per_ft: 250,
        },
    ]
}

/// WSTDA-RS-1 Table 2-1 polyester roundsling ratings (lbs).
pub fn polyester_roundslings() -> (v: Vec<RoundSlingRating>)
    ensures
        v@ == polyester_table(),
{
    let mut v: Vec<RoundSlingRating> = Vec::new();
    v.push(RoundSlingRating {
        size: 1,
        color: "Purple",
        vertical_lbs: 2600,
        choker_lbs: 2100,
        basket_vertical_lbs: 5200,
        basket_45_lbs: 3700,
        weight_centi_lbs_per_ft: 44,
    });
    v.push(RoundSlingRating {
        size: 2,
        color: "Green",
        vertical_lbs: 5300,
        choker_lbs: 4200,
        basket_vertical_lbs: 10600,
        basket_45_lbs: 7500,
        weight_centi_lbs_per_ft: 63,
    });
    v.push(RoundSlingRating {
        size: 3,
        color: "Yellow",
        vertical_lbs: 8400,
        choker_lbs: 6700,
        basket_vertical_lbs: 16800,
        basket_45_lbs: 11900,
        weight_centi_lbs_per_ft: 75,
    });
    v.push(RoundSlingRating {
        size: 4,
        color: "Tan",
        vertical_lbs: 10600,
        choker_lbs: 8500,
        basket_vertical_lbs: 21200,
        basket_45_lbs: 15000,
        weight_centi_lbs_per_ft: 88,
    });
    v.push(RoundSlingRating {
        size: 5,
        color: "Red",
        vertical_lbs: 13200,
        choker_lbs: 10600,
        basket_vertical_lbs: 26400,
        basket_45_lbs: 18700,
        weight_centi_lbs_per_ft: 100,
    });
    v.push(RoundSlingRating {
        size: 6,
        color: "White",
        vertical_lbs: 16800,
        choker_lbs: 13400,
        basket_vertical_lbs: 33600,
        basket_45_lbs: 23800,
        weight_centi_lbs_per_ft: 113,
    });
    v.push(RoundSlingRating {
        size: 7,
        color: "Blue",
        vertical_lbs: 21200,
        choker_lbs: 17000,
        basket_vertical_lbs: 42400,
        basket_45_lbs: 30000,
        weight_centi_lbs_per_ft: 119,
    });
    v.push(RoundSlingRating {
        size: 8,
        color: "Orange",
        vertical_lbs: 25000,
        choker_lbs: 20000,
        basket_vertical_lbs: 50000,
        basket_45_lbs: 35400,
        weight_centi_lbs_per_ft: 125,
    });
    v.push(RoundSlingRating {
        size: 9,
        color: "Orange",
        vertical_lbs: 31000,
        choker_lbs: 24800,
        basket_vertical_lbs: 62000,
        basket_45_lbs: 43800,
        weight_centi_lbs_per_ft: 150,
    });
    v.push(RoundSlingRating {
        size: 10,
        color: "Orange",
        vertical_lbs: 40000,
        choker_lbs: 32000,
        basket_vertical_lbs: 80000,
        basket_45_lbs: 56600,
        weight_centi_lbs_per_ft: 162,
    });
    v.push(RoundSlingRating {
        size: 11,
        color: "Orange",
        vertical_lbs: 53000,
        choker_lbs: 42400,
        basket_vertical_lbs: 106000,
        basket_45_lbs: 74900,
        weight_centi_lbs_per_ft: 200,
    });
    v.push(RoundSlingRating {
        size: 12,
        color: "Orange",
        vertical_lbs: 66000,
        choker_lbs: 52800,
        basket_vertical_lbs: 132000,
        basket_45_lbs: 93000,
        weight_centi_lbs_per_ft: 213,
    });
    v.push(RoundSlingRating {
        size: 13,
        color: "Orange",
        vertical_lbs: 90000,
        choker_lbs: 72000,
        basket_vertical_lbs: 180000,
        basket_45_lbs: 127300,
        weight_centi_lbs_per_ft: 250,
    });
    assert(v@ =~= polyester_table());
    v
}

/// Table entries are sizes 1 to 13 in order.
pub proof fn lemma_table_sizes()
    ensures
        polyester_table().len() == 13,
        forall|i: int| 0 <= i < 13 ==> #[trigger] polyester_table()[i].size == i + 1,
{
}

/// A basket with both legs vertical carries twice the vertical rating, and a
/// choker always carries less than a vertical hitch.
pub proof fn lemma_table_hitch_ratios()
    ensures
        forall|i: int| 0 <= i < 13 ==> {
            let r = #[trigger] polyester_table()[i];
            &&& r.basket_vertical_lbs == 2 * r.vertical_lbs
            &&& r.choker_lbs < r.vertical_lbs
            &&& r.basket_45_lbs < r.basket_vertical_lbs
        },
{
}

/// Larger sizes are never weaker.
pub proof fn lemma_table_ratings_grow()
    ensures
        forall|i: int, j: int|
            0 <= i < j < 13 ==> #[trigger] polyester_table()[i].vertical_lbs
                < #[trigger] polyester_table()[j].vertical_lbs,
{
    assert forall|i: int, j: int| 0 <= i < j < 13 implies #[trigger] polyester_table()[i].vertical_lbs
        < #[trigger] polyester_table()[j].vertical_lbs by {
        assert(forall|k: int| 0 <= k < 12 ==> #[trigger] polyester_table()[k].vertical_lbs
            < polyester_table()[k + 1].vertical_lbs);
        lemma_increasing_chain(i, j);
    }
}

proof fn lemma_increasing_chain(i: int, j: int)
    requires
        0 <= i < j < 13,
        forall|k: int| 0 <= k < 12 ==> #[trigger] polyester_table()[k].vertical_lbs
            < polyester_table()[k + 1].vertical_lbs,
    ensures
        polyester_table()[i].vertical_lbs < polyester_table()[j].vertical_lbs,
    decreases j - i,
{
    assert(polyester_table()[j - 1].vertical_lbs < polyester_table()[j].vertical_lbs);
    if i < j - 1 {
        lemma_increasing_chain(i, j - 1);
    }
}

/// Catalog entry of a size, if the size exists.
pub open spec fn size_entry(size: u8) -> Option<RoundSlingRating> {
    if 1 <= size <= 13 {
        Some(polyester_table()[size - 1])
    } else {
        None
    }
}

/// Catalog entry for a roundsling size (1 to 13).
pub fn find_by_size(size: u8) -> (r: Option<RoundSlingRating>)
    ensures
        r == size_entry(size),
{
    let table = polyester_roundslings();
    let mut i: usize = 0;
    while i < table.len()
        invariant
            table@ == polyester_table(),
            i <= table.len(),
            forall|j: int| 0 <= j < i ==> table@[j].size != size,
        decreases table.len() - i,
    {
        if table[i].size == size {
            return Some(table[i]);
        }
        i = i + 1;
    }
    None
}

/// WLL of a hitch, compared against per-leg tension.
pub open spec fn hitch_wll_spec(r: RoundSlingRating, hitch: Hitch) -> u32 {
    match hitch {
        Hitch::Vertical => r.vertical_lbs,
        Hitch::Choker => r.choker_lbs,
        Hitch::Basket => r.vertical_lbs,
    }
}

/// Text of a roundsling label: `RS-<size> <color> (<vertical> lb vert)`.
pub open spec fn roundsling_label(r: RoundSlingRating) -> Seq<char> {
    "RS-"@ + decimal(r.size as nat) + " "@ + r.color@ + " ("@ + decimal(r.vertical_lbs as nat)
        + " lb vert)"@
}

impl RoundSlingRating {
    /// WLL for the selected hitch, compared against per-leg tension.
    ///
    /// Basket uses vertical WLL per leg (basket rating is 2x when both legs are vertical).
    pub fn hitch_wll_lbs(&self, hitch: Hitch) -> (w: u32)
        ensures
            w == hitch_wll_spec(*self, hitch),
    {
        match hitch {
            Hitch::Vertical => self.vertical_lbs,
            Hitch::Choker => self.choker_lbs,
            Hitch::Basket => self.vertical_lbs,
        }
    }

    pub fn label(&self) -> (s: String)
        ensures
            s@ == roundsling_label(*self),
    {
        let mut s = String::from_str("RS-");
        push_decimal(&mut s, self.size as u64);
        s.append(" ");
        s.append(self.color);
        s.append(" (");
        push_decimal(&mut s, self.vertical_lbs as u64);
        s.append(" lb vert)");
        s
    }
}

} // verus!

//! Screw-pin anchor shackle ratings and self-weights.
//!
//! Representative Crosby G-209 style values for calculation aids.
//! Always verify manufacturer identification tags.
use vstd::prelude::*;
use vstd::string::*;
use crate::text::{decimal, push_decimal, str_eq};

verus! {

/// Screw-pin anchor shackle (representative Crosby G-209 style ratings).
#[derive(Debug, Clone, Copy)]
pub struct ShackleRating {
    /// Nominal size key, e.g. `"3/8"`.
    pub size_in: &'static str,
    /// Working load limit in hundredths of a short ton.
    pub wll_centi_tons: u32,
    /// Working load limit in pounds (ton x 2000).
    pub wll_lbs: u32,
    /// Approximate weight each, hundredths of a pound (Crosby G-209 catalog).
    pub weight_centi_lbs: u32,
}

/// Representative screw-pin anchor shackles, smallest first.
pub open spec fn shackle_table() -> Seq<ShackleRating> {
    seq![
        ShackleRating {
            size_in: "3/8",
            wll_centi_tons: 100,
            wll_lbs: 2000,
            weight_centi_lbs: 31,
        },
        ShackleRating {
            size_in: "7/16",
            wll_centi_tons: 150,
            wll_lbs: 3000,
            weight_centi_lbs: 38,
        },
        ShackleRating {
            size_in: "1/2",
            wll_centi_tons: 200,
            wll_lbs: 4000,
            weight_centi_lbs: 72,
        },
        ShackleRating {
            size_in: "5/8",
            wll_centi_tons: 325,
            wll_lbs: 6500,
            weight_centi_lbs: 137,
        },
        ShackleRating {
            size_in: "3/4",
            wll_centi_tons: 475,
            wll_lbs: 9500,
            weight_centi_lbs: 235,
        },
        ShackleRating {
            size_in: "7/8",
            wll_centi_tons: 650,
            wll_lbs: 13000,
            weight_centi_lbs: 362,
        },
        ShackleRating {
            size_in: "1",
            wll_centi_tons: 850,
            wll_lbs: 17000,
            weight_centi_lbs: 503,
        },
        ShackleRating {
            size_in: "1-1/8",
            wll_centi_tons: 950,
            wll_lbs: 19000,
            weight_centi_lbs: 741,
        },
        ShackleRating {
            size_in: "1-1/4",
            wll_centi_tons: 1200,
            wll_lbs: 24000,
            weight_centi_lbs: 950,
        },
        ShackleRating {
            size_in: "1-3/8",
            wll_centi_tons: 1350,
            wll_lbs: 27000,
            weight_centi_lbs: 1353,
        },
        ShackleRating {
            size_in: "1-1/2",
            wll_centi_tons: 1700,
            wll_lbs: 34000,
            weight_centi_lbs: 1720,
        },
        ShackleRating {
            size_in: "1-3/4",
            wll_centi_tons: 2500,
            wll_lbs: 50000,
            weight_centi_lbs: 2778,
        },
        ShackleRating {
            size_in: "2",
            wll_centi_tons: 3500,
            wll_lbs: 70000,
            weight_centi_lbs: 4500,
        },
        ShackleRating {
            size_in: "2-1/2",
            wll_centi_tons: 5500,
            wll_lbs: 110000,
            weight_centi_lbs: 8575,
        },
    ]
}

/// Representative screw-pin anchor shackles (WLL ton x 2000 gives lb).
pub fn shackles() -> (v: Vec<ShackleRating>)
    ensures
        v@ == shackle_table(),
{
    let mut v: Vec<ShackleRating> = Vec::new();
    v.push(ShackleRating {
        size_in: "3/8",
        wll_centi_tons: 100,
        wll_lbs: 2000,
        weight_centi_lbs: 31,
    });
    v.push(ShackleRating {
        size_in: "7/16",
        wll_centi_tons: 150,
        wll_lbs: 3000,
        weight_centi_lbs: 38,
    });
    v.push(ShackleRating {
        size_in: "1/2",
        wll_centi_tons: 200,
        wll_lbs: 4000,
        weight_centi_lbs: 72,
    });
    v.push(ShackleRating {
        size_in: "5/8",
        wll_centi_tons: 325,
        wll_lbs: 6500,
        weight_centi_lbs: 137,
    });
    v.push(ShackleRating {
        size_in: "3/4",
        wll_centi_tons: 475,
        wll_lbs: 9500,
        weight_centi_lbs: 235,
    });
    v.push(ShackleRating {
        size_in: "7/8",
        wll_centi_tons: 650,
        wll_lbs: 13000,
        weight_centi_lbs: 362,
    });
    v.push(ShackleRating {
        size_in: "1",
        wll_centi_tons: 850,
        wll_lbs: 17000,
        weight_centi_lbs: 503,
    });
    v.push(ShackleRating {
        size_in: "1-1/8",
        wll_centi_tons: 950,
        wll_lbs: 19000,
        weight_centi_lbs: 741,
    });
    v.push(ShackleRating {
        size_in: "1-1/4",
        wll_centi_tons: 1200,
        wll_lbs: 24000,
        weight_centi_lbs: 950,
    });
    v.push(ShackleRating {
        size_in: "1-3/8",
        wll_centi_tons: 1350,
        wll_lbs: 27000,
        weight_centi_lbs: 1353,
    });
    v.push(ShackleRating {
        size_in: "1-1/2",
        wll_centi_tons: 1700,
        wll_lbs: 34000,
        weight_centi_lbs: 1720,
    });
    v.push(ShackleRating {
        size_in: "1-3/4",
        wll_centi_tons: 2500,
        wll_lbs: 50000,
        weight_centi_lbs: 2778,
    });
    v.push(ShackleRating {
        size_in: "2",
        wll_centi_tons: 3500,
        wll_lbs: 70000,
        weight_centi_lbs: 4500,
    });
    v.push(ShackleRating {
        size_in: "2-1/2",
        wll_centi_tons: 5500,
        wll_lbs: 110000,
        weight_centi_lbs: 8575,
    });
    assert(v@ =~= shackle_table());
    v
}

/// The pound rating is the ton rating times 2000, and every shackle has
/// a positive weight.
pub proof fn lemma_shackle_pounds_are_tons()
    ensures
        shackle_table().len() == 14,
        forall|i: int| 0 <= i < 14 ==> {
            let s = #[trigger] shackle_table()[i];
            &&& s.wll_lbs * 100 == s.wll_centi_tons * 2000
            &&& s.weight_centi_lbs > 0
        },
{
}

/// First table entry at or after `i` whose key is `key`.
pub open spec fn shackle_from(key: Seq<char>, i: int) -> Option<ShackleRating>
    decreases 14 - i,
{
    if i < 0 || i >= 14 {
        None
    } else if shackle_table()[i].size_in@ == key {
        Some(shackle_table()[i])
    } else {
        shackle_from(key, i + 1)
    }
}

/// Catalog entry for a shackle size key such as `"3/4"`.
pub fn find_shackle(size_in: &str) -> (r: Option<ShackleRating>)
    ensures
        r == shackle_from(size_in@, 0),
{
    let table = shackles();
    let mut i: usize = 0;
    while i < table.len()
        invariant
            table@ == shackle_table(),
            i <= table.len(),
            shackle_from(size_in@, 0) == shackle_from(size_in@, i as int),
        decreases table.len() - i,
    {
        if str_eq(table[i].size_in, size_in) {
            return Some(table[i]);
        }
        i = i + 1;
    }
    None
}

/// A found shackle carries the key it was looked up by.
pub proof fn lemma_found_shackle_matches(key: Seq<char>, i: int)
    requires
        0 <= i,
    ensures
        shackle_from(key, i) matches Some(s) ==> s.size_in@ == key,
    decreases 14 - i,
{
    if i < 14 && shackle_table()[i].size_in@ != key {
        lemma_found_shackle_matches(key, i + 1);
    }
}

proof fn lemma_shackle_from_rows(key: Seq<char>, i: int)
    requires
        0 <= i <= 14,
    ensures
        shackle_from(key, i) is Some <==> exists|r: int| i <= r < 14 && #[trigger] shackle_table()[r].size_in@ == key,
        shackle_from(key, i) matches Some(s) ==> exists|r: int|
            i <= r < 14 && s == #[trigger] shackle_table()[r] && s.size_in@ == key
                && forall|q: int| i <= q < r ==> shackle_table()[q].size_in@ != key,
    decreases 14 - i,
{
    if i < 14 {
        lemma_shackle_from_rows(key, i + 1);
        if shackle_table()[i].size_in@ != key {
            assert forall|r: int| i <= r < 14 && #[trigger] shackle_table()[r].size_in@ == key implies i + 1 <= r by {}
            if let Some(s) = shackle_from(key, i) {
                let r = choose|r: int|
                    i + 1 <= r < 14 && s == #[trigger] shackle_table()[r] && s.size_in@ == key
                        && forall|q: int| i + 1 <= q < r ==> shackle_table()[q].size_in@ != key;
                assert(forall|q: int| i <= q < r ==> shackle_table()[q].size_in@ != key);
            }
        } else {
            assert(shackle_table()[i].size_in@ == key);
        }
    }
}

/// A shackle lookup finds the first catalog row whose key is the one asked
/// for, and finds nothing only when no row of the catalog has that key:
/// every row of the table can be found by its key.
pub proof fn lemma_find_shackle_first_row(key: Seq<char>)
    ensures
        shackle_from(key, 0) is None <==> forall|r: int| 0 <= r < 14 ==> #[trigger] shackle_table()[r].size_in@ != key,
        shackle_from(key, 0) matches Some(s) ==> exists|r: int|
            0 <= r < 14 && s == #[trigger] shackle_table()[r] && s.size_in@ == key
                && forall|q: int| 0 <= q < r ==> shackle_table()[q].size_in@ != key,
{
    lemma_shackle_from_rows(key, 0);
}

/// No two catalog rows share a key.
pub proof fn lemma_row_keys_distinct()
    ensures
        forall|r: int, q: int| 0 <= r < q < 14 ==> shackle_table()[r].size_in@ != shackle_table()[q].size_in@,
{
    reveal_strlit("3/8");
    reveal_strlit("7/16");
    reveal_strlit("1/2");
    reveal_strlit("5/8");
    reveal_strlit("3/4");
    reveal_strlit("7/8");
    reveal_strlit("1");
    reveal_strlit("1-1/8");
    reveal_strlit("1-1/4");
    reveal_strlit("1-3/8");
    reveal_strlit("1-1/2");
    reveal_strlit("1-3/4");
    reveal_strlit("2");
    reveal_strlit("2-1/2");
    assert forall|r: int, q: int| 0 <= r < q < 14 implies shackle_table()[r].size_in@ != shackle_table()[q].size_in@ by {
        let a = shackle_table()[r].size_in@;
        let b = shackle_table()[q].size_in@;
        if r == 0 && q == 1 {
            assert(a.len() != b.len());
        } else if r == 0 && q == 2 {
            assert(a[0] != b[0]);
        } else if r == 0 && q == 3 {
            assert(a[0] != b[0]);
        } else if r == 0 && q == 4 {
            assert(a[2] != b[2]);
        } else if r == 0 && q == 5 {
            assert(a[0] != b[0]);
        } else if r == 0 && q == 6 {
            assert(a.len() != b.len());
        } else if r == 0 && q == 7 {
            assert(a.len() != b.len());
        } else if r == 0 && q == 8 {
            assert(a.len() != b.len());
        } else if r == 0 && q == 9 {
            assert(a.len() != b.len());
        } else if r == 0 && q == 10 {
            assert(a.len() != b.len());
        } else if r == 0 && q == 11 {
            assert(a.len() != b.len());
        } else if r == 0 && q == 12 {
            assert(a.len() != b.len());
        } else if r == 0 && q == 13 {
            assert(a.len() != b.len());
        } else if r == 1 && q == 2 {
            assert(a.len() != b.len());
        } else if r == 1 && q == 3 {
            assert(a.len() != b.len());
        } else if r == 1 && q == 4 {
            assert(a.len() != b.len());
        } else if r == 1 && q == 5 {
            assert(a.len() != b.len());
        } else if r == 1 && q == 6 {
            assert(a.len() != b.len());
        } else if r == 1 && q == 7 {
            assert(a.len() != b.len());
        } else if r == 1 && q == 8 {
            assert(a.len() != b.len());
        } else if r == 1 && q == 9 {
            assert(a.len() != b.len());
        } else if r == 1 && q == 10 {
            assert(a.len() != b.len());
        } else if r == 1 && q == 11 {
            assert(a.len() != b.len());
        } else if r == 1 && q == 12 {
            assert(a.len() != b.len());
        } else if r == 1 && q == 13 {
            assert(a.len() != b.len());
        } else if r == 2 && q == 3 {
            assert(a[0] != b[0]);
        } else if r == 2 && q == 4 {
            assert(a[0] != b[0]);
        } else if r == 2 && q == 5 {
            assert(a[0] != b[0]);
        } else if r == 2 && q == 6 {
            assert(a.len() != b.len());
        } else if r == 2 && q == 7 {
            assert(a.len() != b.len());
        } else if r == 2 && q == 8 {
            assert(a.len() != b.len());
        } else if r == 2 && q == 9 {
            assert(a.len() != b.len());
        } else if r == 2 && q == 10 {
            assert(a.len() != b.len());
        } else if r == 2 && q == 11 {
            assert(a.len() != b.len());
        } else if r == 2 && q == 12 {
            assert(a.len() != b.len());
        } else if r == 2 && q == 13 {
            assert(a.len() != b.len());
        } else if r == 3 && q == 4 {
            assert(a[0] != b[0]);
        } else if r == 3 && q == 5 {
            assert(a[0] != b[0]);
        } else if r == 3 && q == 6 {
            assert(a.len() != b.len());
        } else if r == 3 && q == 7 {
            assert(a.len() != b.len());
        } else if r == 3 && q == 8 {
            assert(a.len() != b.len());
        } else if r == 3 && q == 9 {
            assert(a.len() != b.len());
        } else if r == 3 && q == 10 {
            assert(a.len() != b.len());
        } else if r == 3 && q == 11 {
            assert(a.len() != b.len());
        } else if r == 3 && q == 12 {
            assert(a.len() != b.len());
        } else if r == 3 && q == 13 {
            assert(a.len() != b.len());
        } else if r == 4 && q == 5 {
            assert(a[0] != b[0]);
        } else if r == 4 && q == 6 {
            assert(a.len() != b.len());
        } else if r == 4 && q == 7 {
            assert(a.len() != b.len());
        } else if r == 4 && q == 8 {
            assert(a.len() != b.len());
        } else if r == 4 && q == 9 {
            assert(a.len() != b.len());
        } else if r == 4 && q == 10 {
            assert(a.len() != b.len());
        } else if r == 4 && q == 11 {
            assert(a.len() != b.len());
        } else if r == 4 && q == 12 {
            assert(a.len() != b.len());
        } else if r == 4 && q == 13 {
            assert(a.len() != b.len());
        } else if r == 5 && q == 6 {
            assert(a.len() != b.len());
        } else if r == 5 && q == 7 {
            assert(a.len() != b.len());
        } else if r == 5 && q == 8 {
            assert(a.len() != b.len());
        } else if r == 5 && q == 9 {
            assert(a.len() != b.len());
        } else if r == 5 && q == 10 {
            assert(a.len() != b.len());
        } else if r == 5 && q == 11 {
            assert(a.len() != b.len());
        } else if r == 5 && q == 12 {
            assert(a.len() != b.len());
        } else if r == 5 && q == 13 {
            assert(a.len() != b.len());
        } else if r == 6 && q == 7 {
            assert(a.len() != b.len());
        } else if r == 6 && q == 8 {
            assert(a.len() != b.len());
        } else if r == 6 && q == 9 {
            assert(a.len() != b.len());
        } else if r == 6 && q == 10 {
            assert(a.len() != b.len());
        } else if r == 6 && q == 11 {
            assert(a.len() != b.len());
        } else if r == 6 && q == 12 {
            assert(a[0] != b[0]);
        } else if r == 6 && q == 13 {
            assert(a.len() != b.len());
        } else if r == 7 && q == 8 {
            assert(a[4] != b[4]);
        } else if r == 7 && q == 9 {
            assert(a[2] != b[2]);
        } else if r == 7 && q == 10 {
            assert(a[4] != b[4]);
        } else if r == 7 && q == 11 {
            assert(a[2] != b[2]);
        } else if r == 7 && q == 12 {
            assert(a.len() != b.len());
        } else if r == 7 && q == 13 {
            assert(a[0] != b[0]);
        } else if r == 8 && q == 9 {
            assert(a[2] != b[2]);
        } else if r == 8 && q == 10 {
            assert(a[4] != b[4]);
        } else if r == 8 && q == 11 {
            assert(a[2] != b[2]);
        } else if r == 8 && q == 12 {
            assert(a.len() != b.len());
        } else if r == 8 && q == 13 {
            assert(a[0] != b[0]);
        } else if r == 9 && q == 10 {
            assert(a[2] != b[2]);
        } else if r == 9 && q == 11 {
            assert(a[4] != b[4]);
        } else if r == 9 && q == 12 {
            assert(a.len() != b.len());
        } else if r == 9 && q == 13 {
            assert(a[0] != b[0]);
        } else if r == 10 && q == 11 {
            assert(a[2] != b[2]);
        } else if r == 10 && q == 12 {
            assert(a.len() != b.len());
        } else if r == 10 && q == 13 {
            assert(a[0] != b[0]);
        } else if r == 11 && q == 12 {
            assert(a.len() != b.len());
        } else if r == 11 && q == 13 {
            assert(a[0] != b[0]);
        } else if r == 12 && q == 13 {
            assert(a.len() != b.len());
        }
    }
}

/// Looking a row up by its own key gives that very row.
pub proof fn lemma_every_row_found(r: int)
    requires
        0 <= r < 14,
    ensures
        shackle_from(shackle_table()[r].size_in@, 0) == Some(shackle_table()[r]),
{
    let key = shackle_table()[r].size_in@;
    lemma_find_shackle_first_row(key);
    lemma_row_keys_distinct();
    assert(shackle_table()[r].size_in@ == key);
    let s = shackle_from(key, 0)->0;
    let q = choose|q: int|
        0 <= q < 14 && s == #[trigger] shackle_table()[q] && s.size_in@ == key
            && forall|p: int| 0 <= p < q ==> shackle_table()[p].size_in@ != key;
    if q < r {
        assert(shackle_table()[q].size_in@ != shackle_table()[r].size_in@);
    } else if q > r {
        assert(shackle_table()[r].size_in@ != shackle_table()[q].size_in@);
    }
}

/// Text of a shackle label: `<size>″ · <wll> lb WLL`.
pub open spec fn shackle_label(s: ShackleRating) -> Seq<char> {
    s.size_in@ + "″ · "@ + decimal(s.wll_lbs as nat) + " lb WLL"@
}

impl ShackleRating {
    pub fn label(&self) -> (s: String)
        ensures
            s@ == shackle_label(*self),
    {
        let mut s = String::from_str(self.size_in);
        s.append("″ · ");
        push_decimal(&mut s, self.wll_lbs as u64);
        s.append(" lb WLL");
        s
    }
}

} // verus!

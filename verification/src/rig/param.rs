//! Parameter quantities and sources, and how quantities combine under
//! arithmetic in expressions.
use vstd::prelude::*;
use vstd::string::*;
use super::{RigError, RigErrorKind};
use super::param_graph::{ParamDeps, in_table, lemma_param_pos, param_pos};

verus! {

/// Base quantity of a parameter. Base units are ft, lb, deg.
#[derive(Debug, Clone, Copy, PartialEq, Eq, Structural)]
pub enum Quantity {
    Length,
    Angle,
    Weight,
    Ratio,
    Count,
}

/// Unit of a quantity as reports print it.
pub open spec fn unit_label_spec(q: Quantity) -> Seq<char> {
    match q {
        Quantity::Length => "ft"@,
        Quantity::Angle => "deg"@,
        Quantity::Weight => "lb"@,
        Quantity::Ratio => "1"@,
        Quantity::Count => "ea"@,
    }
}

/// Name of a quantity in error messages.
pub open spec fn quantity_name(q: Quantity) -> Seq<char> {
    match q {
        Quantity::Length => "Length"@,
        Quantity::Angle => "Angle"@,
        Quantity::Weight => "Weight"@,
        Quantity::Ratio => "Ratio"@,
        Quantity::Count => "Count"@,
    }
}

impl Quantity {
    pub fn unit_label(self) -> (s: &'static str)
        ensures
            s@ == unit_label_spec(self),
    {
        match self {
            Quantity::Length => "ft",
            Quantity::Angle => "deg",
            Quantity::Weight => "lb",
            Quantity::Ratio => "1",
            Quantity::Count => "ea",
        }
    }

    fn name(self) -> (s: &'static str)
        ensures
            s@ == quantity_name(self),
    {
        match self {
            Quantity::Length => "Length",
            Quantity::Angle => "Angle",
            Quantity::Weight => "Weight",
            Quantity::Ratio => "Ratio",
            Quantity::Count => "Count",
        }
    }
}

/// Where a parameter value came from. `Assumed` tags any output as provisional.
#[derive(Debug, Clone, Copy, PartialEq, Eq, Structural)]
pub enum ParamSource {
    Drawing,
    Catalog,
    Measured,
    Assumed,
    Derived,
}

/// Quantity of a sum or difference; `None` (outer) when the two clash.
/// An untyped operand (a constant) takes the other's quantity.
pub open spec fn add_quantity(a: Option<Quantity>, b: Option<Quantity>) -> Option<Option<Quantity>> {
    match (a, b) {
        (None, q) => Some(q),
        (q, None) => Some(q),
        (Some(x), Some(y)) => if x == y { Some(Some(x)) } else { None },
    }
}

/// Quantity of a product; ratios and counts scale the other operand.
pub open spec fn mul_quantity(a: Option<Quantity>, b: Option<Quantity>) -> Option<Option<Quantity>> {
    match (a, b) {
        (None, q) => Some(q),
        (q, None) => Some(q),
        (Some(x), Some(y)) => if x == Quantity::Ratio {
            Some(Some(y))
        } else if y == Quantity::Ratio {
            Some(Some(x))
        } else if x == Quantity::Count {
            Some(Some(y))
        } else if y == Quantity::Count {
            Some(Some(x))
        } else {
            None
        },
    }
}

/// Quantity of a quotient; like over like is a ratio, a quantity over a
/// ratio or count keeps its quantity, a constant over anything is untyped.
pub open spec fn div_quantity(a: Option<Quantity>, b: Option<Quantity>) -> Option<Option<Quantity>> {
    match (a, b) {
        (q, None) => Some(q),
        (None, Some(_)) => Some(None),
        (Some(x), Some(y)) => if x == y {
            Some(Some(Quantity::Ratio))
        } else if y == Quantity::Ratio || y == Quantity::Count {
            Some(Some(x))
        } else {
            None
        },
    }
}

/// Message of a clash between two quantities under an operation.
pub open spec fn clash_message(verb: Seq<char>, joiner: Seq<char>, x: Quantity, y: Quantity) -> Seq<char> {
    "cannot "@ + verb + " "@ + quantity_name(x) + " "@ + joiner + " "@ + quantity_name(y)
}

fn clash(verb: &str, joiner: &str, x: Quantity, y: Quantity) -> (e: RigError)
    ensures
        e.code == RigErrorKind::QuantityMismatch,
        e.message@ == clash_message(verb@, joiner@, x, y),
{
    let mut m = String::from_str("cannot ");
    m.append(verb);
    m.append(" ");
    m.append(x.name());
    m.append(" ");
    m.append(joiner);
    m.append(" ");
    m.append(y.name());
    RigError::new(RigErrorKind::QuantityMismatch, m)
}

/// Quantity of `a + b` (or `a - b`).
pub fn merge_add(a: Option<Quantity>, b: Option<Quantity>) -> (r: Result<Option<Quantity>, RigError>)
    ensures
        match r {
            Ok(q) => add_quantity(a, b) == Some(q),
            Err(e) => add_quantity(a, b) is None && e.code == RigErrorKind::QuantityMismatch
                && e.message@ == clash_message("add"@, "to"@, a->0, b->0),
        },
{
    match (a, b) {
        (None, q) => Ok(q),
        (q, None) => Ok(q),
        (Some(x), Some(y)) => {
            if x == y {
                Ok(Some(x))
            } else {
                Err(clash("add", "to", x, y))
            }
        },
    }
}

/// Quantity of `a * b`.
pub fn merge_mul(a: Option<Quantity>, b: Option<Quantity>) -> (r: Result<Option<Quantity>, RigError>)
    ensures
        match r {
            Ok(q) => mul_quantity(a, b) == Some(q),
            Err(e) => mul_quantity(a, b) is None && e.code == RigErrorKind::QuantityMismatch
                && e.message@ == clash_message("multiply"@, "by"@, a->0, b->0),
        },
{
    match (a, b) {
        (None, q) => Ok(q),
        (q, None) => Ok(q),
        (Some(x), Some(y)) => {
            if x == Quantity::Ratio {
                Ok(Some(y))
            } else if y == Quantity::Ratio {
                Ok(Some(x))
            } else if x == Quantity::Count {
                Ok(Some(y))
            } else if y == Quantity::Count {
                Ok(Some(x))
            } else {
                Err(clash("multiply", "by", x, y))
            }
        },
    }
}

/// Quantity of `a / b`.
pub fn merge_div(a: Option<Quantity>, b: Option<Quantity>) -> (r: Result<Option<Quantity>, RigError>)
    ensures
        match r {
            Ok(q) => div_quantity(a, b) == Some(q),
            Err(e) => div_quantity(a, b) is None && e.code == RigErrorKind::QuantityMismatch
                && e.message@ == clash_message("divide"@, "by"@, a->0, b->0),
        },
{
    match (a, b) {
        (q, None) => Ok(q),
        (None, Some(_)) => Ok(None),
        (Some(x), Some(y)) => {
            if x == y {
                Ok(Some(Quantity::Ratio))
            } else if y == Quantity::Ratio || y == Quantity::Count {
                Ok(Some(x))
            } else {
                Err(clash("divide", "by", x, y))
            }
        },
    }
}

/// Addition and multiplication do not care about operand order; an
/// untyped constant never changes a quantity under addition, and adding
/// two different quantities always clashes.
pub proof fn lemma_quantity_algebra(a: Option<Quantity>, b: Option<Quantity>)
    ensures
        add_quantity(a, b) == add_quantity(b, a),
        mul_quantity(a, b) == mul_quantity(b, a),
        add_quantity(None, a) == Some(a),
        add_quantity(a, a) == Some(a),
        (a is Some && b is Some && a != b) ==> add_quantity(a, b) is None,
        a is Some ==> div_quantity(a, a) == Some(Some(Quantity::Ratio)),
        a is Some ==> mul_quantity(a, Some(Quantity::Ratio)) == Some(a),
        div_quantity(a, Some(Quantity::Ratio)) == Some(a),
{
}

/// The shape of an arithmetic expression over parameters: which parameters
/// it references and how they combine. Constants are kept without their
/// value.
#[derive(Debug)]
pub enum Expr {
    Const,
    Param(u128),
    Neg(Box<Expr>),
    Add(Box<Expr>, Box<Expr>),
    Sub(Box<Expr>, Box<Expr>),
    Mul(Box<Expr>, Box<Expr>),
    Div(Box<Expr>, Box<Expr>),
}

/// Parameters referenced anywhere in an expression.
pub open spec fn refs(e: Expr) -> Set<u128>
    decreases e,
{
    match e {
        Expr::Const => Set::empty(),
        Expr::Param(id) => set![id],
        Expr::Neg(a) => refs(*a),
        Expr::Add(a, b) => refs(*a).union(refs(*b)),
        Expr::Sub(a, b) => refs(*a).union(refs(*b)),
        Expr::Mul(a, b) => refs(*a).union(refs(*b)),
        Expr::Div(a, b) => refs(*a).union(refs(*b)),
    }
}

/// Strictly ascending: sorted, no repeats.
pub open spec fn ascending(s: Seq<u128>) -> bool {
    forall|i: int, j: int| 0 <= i < j < s.len() ==> s[i] < s[j]
}

/// Adds `x` to an ascending list, keeping it ascending.
fn insert_sorted(v: &mut Vec<u128>, x: u128)
    requires
        ascending(old(v)@),
    ensures
        ascending(final(v)@),
        forall|y: u128| final(v)@.contains(y) <==> (old(v)@.contains(y) || y == x),
{
    let mut p: usize = 0;
    while p < v.len() && v[p] < x
        invariant
            p <= v@.len(),
            forall|k: int| 0 <= k < p ==> v@[k] < x,
        decreases v@.len() - p,
    {
        p = p + 1;
    }
    if p < v.len() && v[p] == x {
        return;
    }
    let ghost before = v@;
    v.insert(p, x);
    assert forall|y: u128| v@.contains(y) <==> (before.contains(y) || y == x) by {
        if v@.contains(y) {
            let k = choose|k: int| 0 <= k < v@.len() && v@[k] == y;
            if k < p {
                assert(before[k] == y);
            } else if k > p {
                assert(before[k - 1] == y);
            }
        }
        if before.contains(y) {
            let k = choose|k: int| 0 <= k < before.len() && before[k] == y;
            if k < p {
                assert(v@[k] == y);
            } else {
                assert(v@[k + 1] == y);
            }
        }
        if y == x {
            assert(v@[p as int] == x);
        }
    }
}

fn collect_params(e: &Expr, out: Vec<u128>) -> (r: Vec<u128>)
    requires
        ascending(out@),
    ensures
        ascending(r@),
        forall|y: u128| r@.contains(y) <==> (out@.contains(y) || refs(*e).contains(y)),
    decreases e,
{
    match e {
        Expr::Const => {
            assert(refs(*e) =~= Set::<u128>::empty());
            out
        },
        Expr::Param(id) => {
            let mut out = out;
            insert_sorted(&mut out, *id);
            assert(refs(*e) =~= set![*id]);
            out
        },
        Expr::Neg(a) => {
            assert(refs(*e) == refs(**a));
            collect_params(a, out)
        },
        Expr::Add(a, b) => {
            assert(refs(*e) == refs(**a).union(refs(**b)));
            collect_params(b, collect_params(a, out))
        },
        Expr::Sub(a, b) => {
            assert(refs(*e) == refs(**a).union(refs(**b)));
            collect_params(b, collect_params(a, out))
        },
        Expr::Mul(a, b) => {
            assert(refs(*e) == refs(**a).union(refs(**b)));
            collect_params(b, collect_params(a, out))
        },
        Expr::Div(a, b) => {
            assert(refs(*e) == refs(**a).union(refs(**b)));
            collect_params(b, collect_params(a, out))
        },
    }
}

impl Expr {
    /// A reference to parameter `id`.
    pub fn p(id: u128) -> (e: Self)
        ensures
            e == Expr::Param(id),
    {
        Expr::Param(id)
    }

    /// Parameter ids referenced anywhere in this expression, ascending.
    pub fn params(&self) -> (ids: Vec<u128>)
        ensures
            ascending(ids@),
            forall|y: u128| ids@.contains(y) <==> refs(*self).contains(y),
    {
        collect_params(self, Vec::new())
    }
}

/// Parameters the expression references that the table lacks, ascending.
pub fn unknown_params(expr: &Expr, table: &Vec<ParamDeps>) -> (ids: Vec<u128>)
    ensures
        ascending(ids@),
        forall|y: u128| ids@.contains(y) <==> (refs(*expr).contains(y) && !in_table(table@, y)),
{
    let all = expr.params();
    let mut out: Vec<u128> = Vec::new();
    let mut k: usize = 0;
    while k < all.len()
        invariant
            k <= all@.len(),
            ascending(all@),
            ascending(out@),
            k < all@.len() ==> forall|i: int| 0 <= i < out@.len() ==> #[trigger] out@[i] < all@[k as int],
            forall|y: u128| out@.contains(y) <==> (exists|j: int| 0 <= j < k && #[trigger] all@[j] == y) && !in_table(table@, y),
        decreases all@.len() - k,
    {
        let id = all[k];
        let mut known = false;
        let mut q: usize = 0;
        while q < table.len()
            invariant
                q <= table@.len(),
                known == exists|r: int| 0 <= r < q && #[trigger] table@[r].id == id,
            decreases table@.len() - q,
        {
            if table[q].id == id {
                known = true;
            }
            q = q + 1;
        }
        proof {
            lemma_param_pos(table@, id, 0);
            if known {
                let r = choose|r: int| 0 <= r < table@.len() && #[trigger] table@[r].id == id;
                assert(param_pos(table@, id, 0) >= 0);
            } else {
                if param_pos(table@, id, 0) >= 0 {
                    let r = param_pos(table@, id, 0);
                    assert(table@[r].id == id);
                }
            }
            assert(known == in_table(table@, id));
        }
        let ghost prev = out@;
        if !known {
            let ghost before = out@;
            out.push(id);
            assert forall|i: int, j: int| 0 <= i < j < out@.len() implies out@[i] < out@[j] by {
                if j == out@.len() - 1 {
                    assert(before[i] < all@[k as int]);
                }
            }
        }
        assert(k + 1 < all@.len() ==> all@[k as int] < all@[k + 1]);
        assert forall|y: u128| out@.contains(y) <==> (exists|j: int| 0 <= j < k + 1 && #[trigger] all@[j] == y) && !in_table(table@, y) by {
            if !known {
                assert(out@ == prev.push(id));
                if out@.contains(y) && y != id {
                    let i = choose|i: int| 0 <= i < out@.len() && out@[i] == y;
                    assert(prev[i] == y);
                }
                if prev.contains(y) {
                    let i = choose|i: int| 0 <= i < prev.len() && prev[i] == y;
                    assert(out@[i] == y);
                }
                if y == id {
                    assert(out@[prev.len() as int] == y);
                }
            } else {
                assert(out@ == prev);
            }
            if (exists|j: int| 0 <= j < k + 1 && #[trigger] all@[j] == y) && !(exists|j: int| 0 <= j < k && #[trigger] all@[j] == y) {
                assert(all@[k as int] == y);
            }
            if exists|j: int| 0 <= j < k && #[trigger] all@[j] == y {
                let j = choose|j: int| 0 <= j < k && #[trigger] all@[j] == y;
                assert(0 <= j < k + 1 && all@[j] == y);
            }
        }
        k = k + 1;
    }
    out
}

} // verus!

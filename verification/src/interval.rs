use crate::text::{lemma_lex_irreflexive, lemma_lex_total, lemma_lex_transitive, lex_lt, text_lt};
use std::cmp::Ordering;
use vstd::prelude::*;

verus! {

/// One end of a validity interval.
///
/// `text` is the bound as the table holds it. `rank` stands for the bound's
/// numeric value where the era's subtype is numeric: of two bounds the one
/// with the smaller value has the smaller rank, and equal values have equal
/// ranks. Eras of another subtype do not read it.
#[derive(Debug, PartialEq, Eq)]
pub struct Bound {
    pub text: String,
    pub rank: i64,
}

/// What a [`Bound`] is to the contracts.
pub struct BoundModel {
    pub text: Seq<char>,
    pub rank: int,
}

impl DeepView for Bound {
    type V = BoundModel;

    open spec fn deep_view(&self) -> BoundModel {
        BoundModel { text: self.text@, rank: self.rank as int }
    }
}

impl Clone for Bound {
    fn clone(&self) -> (r: Self)
        ensures
            r == *self,
    {
        Bound { text: self.text.clone(), rank: self.rank }
    }
}

impl Bound {
    /// A bound of an era whose subtype is ordered as text.
    pub fn of_text(text: String) -> (r: Self)
        ensures
            r.deep_view() == (BoundModel { text: text@, rank: 0 }),
    {
        Bound { text, rank: 0 }
    }

    /// The bound with no text, which stands where a bound is absent.
    pub fn blank() -> (r: Self)
        ensures
            r.deep_view() == blank_bound(),
    {
        Bound { text: String::new(), rank: 0 }
    }
}

/// The bound with no text and rank 0.
pub open spec fn blank_bound() -> BoundModel {
    BoundModel { text: Seq::empty(), rank: 0 }
}

/// Whether `a` lies strictly before `b`: by rank in a numeric era, by the
/// lexicographic order of the texts in any other.
pub open spec fn before(a: BoundModel, b: BoundModel, numeric: bool) -> bool {
    if numeric {
        a.rank < b.rank
    } else {
        lex_lt(a.text, b.text)
    }
}

/// Whether neither bound lies before the other.
pub open spec fn level(a: BoundModel, b: BoundModel, numeric: bool) -> bool {
    !before(a, b, numeric) && !before(b, a, numeric)
}

/// `before` is a strict order whose ties are transitive.
pub proof fn lemma_before_order(a: BoundModel, b: BoundModel, c: BoundModel, numeric: bool)
    ensures
        !before(a, a, numeric),
        !(before(a, b, numeric) && before(b, a, numeric)),
        before(a, b, numeric) && before(b, c, numeric) ==> before(a, c, numeric),
        level(a, b, numeric) && level(b, c, numeric) ==> level(a, c, numeric),
        level(a, b, numeric) && before(b, c, numeric) ==> before(a, c, numeric),
        before(a, b, numeric) && level(b, c, numeric) ==> before(a, c, numeric),
        !numeric ==> (level(a, b, numeric) <==> a.text == b.text),
{
    if !numeric {
        lemma_lex_irreflexive(a.text);
        lemma_lex_irreflexive(b.text);
        lemma_lex_total(a.text, b.text);
        lemma_lex_total(b.text, c.text);
        lemma_lex_total(a.text, c.text);
        if lex_lt(a.text, b.text) && lex_lt(b.text, c.text) {
            lemma_lex_transitive(a.text, b.text, c.text);
        }
        if lex_lt(c.text, b.text) && lex_lt(b.text, a.text) {
            lemma_lex_transitive(c.text, b.text, a.text);
        }
    }
}

/// Whether `a` lies strictly before `b`.
pub fn precedes(a: &Bound, b: &Bound, is_numeric: bool) -> (r: bool)
    ensures
        r == before(a.deep_view(), b.deep_view(), is_numeric),
{
    if is_numeric {
        a.rank < b.rank
    } else {
        text_lt(a.text.as_str(), b.text.as_str())
    }
}

/// Whether `a` does not lie after `b`.
pub fn not_after(a: &Bound, b: &Bound, is_numeric: bool) -> (r: bool)
    ensures
        r == !before(b.deep_view(), a.deep_view(), is_numeric),
{
    !precedes(b, a, is_numeric)
}

/// Whether neither bound lies before the other.
pub fn on_level(a: &Bound, b: &Bound, is_numeric: bool) -> (r: bool)
    ensures
        r == level(a.deep_view(), b.deep_view(), is_numeric),
{
    !precedes(a, b, is_numeric) && !precedes(b, a, is_numeric)
}

/// Compares two bounds with regard to the era's subtype.
pub fn temporal_cmp(a: &Bound, b: &Bound, is_numeric: bool) -> (r: Ordering)
    ensures
        (r is Less) == before(a.deep_view(), b.deep_view(), is_numeric),
        (r is Greater) == before(b.deep_view(), a.deep_view(), is_numeric),
        (r is Equal) == level(a.deep_view(), b.deep_view(), is_numeric),
{
    proof {
        lemma_before_order(a.deep_view(), b.deep_view(), a.deep_view(), is_numeric);
    }
    if precedes(a, b, is_numeric) {
        Ordering::Less
    } else if precedes(b, a, is_numeric) {
        Ordering::Greater
    } else {
        Ordering::Equal
    }
}

/// How two intervals lie to each other, after Allen.
#[derive(Debug, Clone, Copy, PartialEq, Eq, Structural)]
pub enum AllenRelation {
    Precedes,
    Meets,
    Overlaps,
    Starts,
    During,
    Finishes,
    Equals,
    PrecededBy,
    MetBy,
    OverlappedBy,
    StartedBy,
    Contains,
    FinishedBy,
}

/// The relation of `[xf, xu)` to `[yf, yu)`: the first of the thirteen, in
/// the order of the enum, whose condition the bounds meet.
pub open spec fn allen(
    xf: BoundModel,
    xu: BoundModel,
    yf: BoundModel,
    yu: BoundModel,
    n: bool,
) -> Option<AllenRelation> {
    if before(xu, yf, n) {
        Some(AllenRelation::Precedes)
    } else if level(xu, yf, n) {
        Some(AllenRelation::Meets)
    } else if before(xf, yf, n) && before(yf, xu, n) && before(xu, yu, n) {
        Some(AllenRelation::Overlaps)
    } else if level(xf, yf, n) && before(xu, yu, n) {
        Some(AllenRelation::Starts)
    } else if before(yf, xf, n) && before(xu, yu, n) {
        Some(AllenRelation::During)
    } else if before(yf, xf, n) && level(xu, yu, n) {
        Some(AllenRelation::Finishes)
    } else if level(xf, yf, n) && level(xu, yu, n) {
        Some(AllenRelation::Equals)
    } else if before(yu, xf, n) {
        Some(AllenRelation::PrecededBy)
    } else if level(yu, xf, n) {
        Some(AllenRelation::MetBy)
    } else if before(yf, xf, n) && before(xf, yu, n) && before(yu, xu, n) {
        Some(AllenRelation::OverlappedBy)
    } else if level(xf, yf, n) && before(yu, xu, n) {
        Some(AllenRelation::StartedBy)
    } else if before(xf, yf, n) && before(yu, xu, n) {
        Some(AllenRelation::Contains)
    } else if before(xf, yf, n) && level(xu, yu, n) {
        Some(AllenRelation::FinishedBy)
    } else {
        None
    }
}

/// The relation that holds the other way round.
pub open spec fn inverse(r: AllenRelation) -> AllenRelation {
    match r {
        AllenRelation::Precedes => AllenRelation::PrecededBy,
        AllenRelation::Meets => AllenRelation::MetBy,
        AllenRelation::Overlaps => AllenRelation::OverlappedBy,
        AllenRelation::Starts => AllenRelation::StartedBy,
        AllenRelation::During => AllenRelation::Contains,
        AllenRelation::Finishes => AllenRelation::FinishedBy,
        AllenRelation::Equals => AllenRelation::Equals,
        AllenRelation::PrecededBy => AllenRelation::Precedes,
        AllenRelation::MetBy => AllenRelation::Meets,
        AllenRelation::OverlappedBy => AllenRelation::Overlaps,
        AllenRelation::StartedBy => AllenRelation::Starts,
        AllenRelation::Contains => AllenRelation::During,
        AllenRelation::FinishedBy => AllenRelation::Finishes,
    }
}

/// The name of a relation.
pub open spec fn allen_name(r: AllenRelation) -> Seq<char> {
    match r {
        AllenRelation::Precedes => "precedes"@,
        AllenRelation::Meets => "meets"@,
        AllenRelation::Overlaps => "overlaps"@,
        AllenRelation::Starts => "starts"@,
        AllenRelation::During => "during"@,
        AllenRelation::Finishes => "finishes"@,
        AllenRelation::Equals => "equals"@,
        AllenRelation::PrecededBy => "preceded_by"@,
        AllenRelation::MetBy => "met_by"@,
        AllenRelation::OverlappedBy => "overlapped_by"@,
        AllenRelation::StartedBy => "started_by"@,
        AllenRelation::Contains => "contains"@,
        AllenRelation::FinishedBy => "finished_by"@,
    }
}

impl AllenRelation {
    pub fn as_str(&self) -> (r: &'static str)
        ensures
            r@ == allen_name(*self),
    {
        match self {
            Self::Precedes => "precedes",
            Self::Meets => "meets",
            Self::Overlaps => "overlaps",
            Self::Starts => "starts",
            Self::During => "during",
            Self::Finishes => "finishes",
            Self::Equals => "equals",
            Self::PrecededBy => "preceded_by",
            Self::MetBy => "met_by",
            Self::OverlappedBy => "overlapped_by",
            Self::StartedBy => "started_by",
            Self::Contains => "contains",
            Self::FinishedBy => "finished_by",
        }
    }

    /// The relation of `[x_from, x_until)` to `[y_from, y_until)`.
    pub fn compute(
        x_from: &Bound,
        x_until: &Bound,
        y_from: &Bound,
        y_until: &Bound,
        is_numeric: bool,
    ) -> (r: Option<Self>)
        ensures
            r == allen(
                x_from.deep_view(),
                x_until.deep_view(),
                y_from.deep_view(),
                y_until.deep_view(),
                is_numeric,
            ),
    {
        let n = is_numeric;
        if precedes(x_until, y_from, n) {
            Some(Self::Precedes)
        } else if on_level(x_until, y_from, n) {
            Some(Self::Meets)
        } else if precedes(x_from, y_from, n) && precedes(y_from, x_until, n) && precedes(
            x_until,
            y_until,
            n,
        ) {
            Some(Self::Overlaps)
        } else if on_level(x_from, y_from, n) && precedes(x_until, y_until, n) {
            Some(Self::Starts)
        } else if precedes(y_from, x_from, n) && precedes(x_until, y_until, n) {
            Some(Self::During)
        } else if precedes(y_from, x_from, n) && on_level(x_until, y_until, n) {
            Some(Self::Finishes)
        } else if on_level(x_from, y_from, n) && on_level(x_until, y_until, n) {
            Some(Self::Equals)
        } else if precedes(y_until, x_from, n) {
            Some(Self::PrecededBy)
        } else if on_level(y_until, x_from, n) {
            Some(Self::MetBy)
        } else if precedes(y_from, x_from, n) && precedes(x_from, y_until, n) && precedes(
            y_until,
            x_until,
            n,
        ) {
            Some(Self::OverlappedBy)
        } else if on_level(x_from, y_from, n) && precedes(y_until, x_until, n) {
            Some(Self::StartedBy)
        } else if precedes(x_from, y_from, n) && precedes(y_until, x_until, n) {
            Some(Self::Contains)
        } else if precedes(x_from, y_from, n) && on_level(x_until, y_until, n) {
            Some(Self::FinishedBy)
        } else {
            None
        }
    }
}

/// Of two intervals that are not empty, each stands to the other in one of
/// the thirteen relations, and the two relations are inverse to each other.
pub proof fn lemma_allen_symmetry(
    xf: BoundModel,
    xu: BoundModel,
    yf: BoundModel,
    yu: BoundModel,
    numeric: bool,
)
    requires
        before(xf, xu, numeric),
        before(yf, yu, numeric),
    ensures
        allen(xf, xu, yf, yu, numeric) is Some,
        allen(yf, yu, xf, xu, numeric) == Some(inverse(allen(xf, xu, yf, yu, numeric)->0)),
{
    lemma_before_order(xf, xu, yf, numeric);
    lemma_before_order(xf, xu, yu, numeric);
    lemma_before_order(xf, yf, yu, numeric);
    lemma_before_order(xu, yf, yu, numeric);
    lemma_before_order(yf, yu, xf, numeric);
    lemma_before_order(yf, yu, xu, numeric);
    lemma_before_order(yf, xf, xu, numeric);
    lemma_before_order(yu, xf, xu, numeric);
    lemma_before_order(xf, yf, xu, numeric);
    lemma_before_order(xf, yu, xu, numeric);
    lemma_before_order(yf, xf, yu, numeric);
    lemma_before_order(yf, xu, yu, numeric);
    lemma_before_order(xu, yu, xf, numeric);
    lemma_before_order(yu, xu, yf, numeric);
    lemma_before_order(xu, xf, yf, numeric);
    lemma_before_order(yu, yf, xf, numeric);
    lemma_before_order(xf, yf, xf, numeric);
    lemma_before_order(xu, yu, xu, numeric);
    lemma_before_order(xu, yf, xu, numeric);
    lemma_before_order(xf, yu, xf, numeric);
}

/// What an UPDATE does to the interval of the row it changes.
#[derive(Debug, Clone, Copy, PartialEq, Eq, Structural)]
pub enum UpdateEffect {
    /// Both ends stay where they were; written `NONE`.
    Unchanged,
    Shrink,
    Move,
    Grow,
}

/// The name of an effect.
pub open spec fn effect_name(e: UpdateEffect) -> Seq<char> {
    match e {
        UpdateEffect::Unchanged => "NONE"@,
        UpdateEffect::Shrink => "SHRINK"@,
        UpdateEffect::Move => "MOVE"@,
        UpdateEffect::Grow => "GROW"@,
    }
}

impl UpdateEffect {
    pub fn as_str(&self) -> (r: &'static str)
        ensures
            r@ == effect_name(*self),
    {
        match self {
            Self::Unchanged => "NONE",
            Self::Shrink => "SHRINK",
            Self::Move => "MOVE",
            Self::Grow => "GROW",
        }
    }
}

/// The effect of replacing `[old_from, old_until)` by `[new_from, new_until)`:
/// none where both ends stay, a shrink where the new interval lies within the
/// old one, a growth where it holds the old one, else a move.
pub open spec fn effect_of(
    old_from: BoundModel,
    old_until: BoundModel,
    new_from: BoundModel,
    new_until: BoundModel,
    n: bool,
) -> UpdateEffect {
    if level(new_from, old_from, n) && level(new_until, old_until, n) {
        UpdateEffect::Unchanged
    } else if !before(new_from, old_from, n) && !before(old_until, new_until, n) {
        UpdateEffect::Shrink
    } else if !before(old_from, new_from, n) && !before(new_until, old_until, n) {
        UpdateEffect::Grow
    } else {
        UpdateEffect::Move
    }
}

pub fn compute_update_effect(
    old_from: &Bound,
    old_until: &Bound,
    new_from: &Bound,
    new_until: &Bound,
    is_numeric: bool,
) -> (r: UpdateEffect)
    ensures
        r == effect_of(
            old_from.deep_view(),
            old_until.deep_view(),
            new_from.deep_view(),
            new_until.deep_view(),
            is_numeric,
        ),
{
    let n = is_numeric;
    if on_level(new_from, old_from, n) && on_level(new_until, old_until, n) {
        UpdateEffect::Unchanged
    } else if !precedes(new_from, old_from, n) && !precedes(old_until, new_until, n) {
        UpdateEffect::Shrink
    } else if !precedes(old_from, new_from, n) && !precedes(new_until, old_until, n) {
        UpdateEffect::Grow
    } else {
        UpdateEffect::Move
    }
}

} // verus!

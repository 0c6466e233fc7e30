//! End-to-end reaction solving: classify → predict products → balance. The
//! caller weighs the balanced terms (molar masses, limiting reactant, yields).
use crate::balancer::{balance, balance_of, balances, lowest_terms, unique_ratio, views};
use crate::composition::Composition;
use crate::product_prediction::{
    predict_products, prediction_fits, prediction_model, prediction_of, product_model, Prediction,
    PredictionModel, Product,
};
use crate::reactant::Reactant;
use crate::reaction_class::{class_of, classify_reaction, ReactionClass};
use crate::stoichiometry::{is_diatomic, is_naturally_diatomic};
use crate::text::{chars_of, extend_chars, string_of};
use vstd::prelude::*;

verus! {

/// A composition's entries: `(symbol, count)`.
pub type Entries = Seq<(Seq<char>, i64)>;

/// One balanced reactant or product term: its coefficient, display formula
/// and elemental composition.
#[derive(Debug, Clone, PartialEq, Eq)]
pub struct BalancedTerm {
    pub coeff: i64,
    pub formula: String,
    pub composition: Composition,
}

/// The result of solving a two-reactant reaction: its class, the balanced
/// reactant and product terms, messages, and whether it goes.
#[derive(Debug, Clone, PartialEq, Eq)]
pub struct ReactionResult {
    pub reaction_class: ReactionClass,
    pub reactants: Vec<BalancedTerm>,
    pub products: Vec<BalancedTerm>,
    pub messages: Vec<String>,
    pub feasible: bool,
}

/// Why a reaction could not be solved.
#[derive(Debug, Clone, PartialEq, Eq)]
pub enum ReactionError {
    Unbalanceable,
    NoProducts,
    UnknownReactionClass,
    MissingAtomicMass(String),
}

impl ReactionResult {
    /// Every term's composition is well formed.
    pub open spec fn terms_wf(&self) -> bool {
        &&& forall|i: int| 0 <= i < self.reactants@.len() ==> (#[trigger] self.reactants@[i]).composition.wf()
        &&& forall|i: int| 0 <= i < self.products@.len() ==> (#[trigger] self.products@[i]).composition.wf()
    }
}

/// A term's coefficient, formula and entries.
pub open spec fn term_model(t: BalancedTerm) -> (i64, Seq<char>, Entries) {
    (t.coeff, t.formula@, t.composition@)
}

/// The models of a sequence of terms.
pub open spec fn term_models(v: Seq<BalancedTerm>) -> Seq<(i64, Seq<char>, Entries)> {
    v.map_values(|t: BalancedTerm| term_model(t))
}

/// The message strings.
pub open spec fn message_models(v: Seq<String>) -> Seq<Seq<char>> {
    v.map_values(|s: String| s@)
}

/// `"{X} only exists as {X}₂"` when the reactant is written as a naturally
/// diatomic element's molecule.
pub open spec fn diatomic_note(r: Reactant) -> Seq<Seq<char>> {
    let f = r.formula@;
    if r.species@.len() > 0 && f.len() > 0 && f.last() == '₂' && is_diatomic(r.species@[0]@.symbol) {
        let sym = r.species@[0]@.symbol;
        seq![sym + " only exists as "@ + sym + "₂"@]
    } else {
        Seq::empty()
    }
}

/// A reactant as an unbalanced term (coefficient 1).
pub open spec fn unit_term(r: Reactant) -> (i64, Seq<char>, Entries) {
    (1, r.formula@, r.composition@)
}

/// What a solved reaction holds: for an infeasible prediction the reactants
/// with coefficient 1, no products and the reason; otherwise the predicted
/// products, with positive coefficients in lowest terms that conserve every
/// element, and the diatomic notes of the reactants.
pub open spec fn solved_as(out: ReactionResult, r1: Reactant, r2: Reactant) -> bool {
    &&& class_of(r1, r2) != ReactionClass::NoReaction
    &&& out.reaction_class == class_of(r1, r2)
    &&& match prediction_of(class_of(r1, r2), r1, r2) {
        PredictionModel::Infeasible(reason) => {
            &&& term_models(out.reactants@) == seq![unit_term(r1), unit_term(r2)]
            &&& out.products@.len() == 0
            &&& message_models(out.messages@) == seq![reason]
            &&& !out.feasible
        },
        PredictionModel::Products(list) => {
            let coeffs = seq![out.reactants@[0].coeff, out.reactants@[1].coeff] + out.products@.map_values(|t: BalancedTerm| t.coeff);
            &&& list.len() > 0
            &&& out.feasible
            &&& out.reactants@.len() == 2
            &&& out.products@.len() == list.len()
            &&& out.reactants@[0].formula@ == r1.formula@
            &&& out.reactants@[0].composition@ == r1.composition@
            &&& out.reactants@[1].formula@ == r2.formula@
            &&& out.reactants@[1].composition@ == r2.composition@
            &&& forall|i: int| 0 <= i < list.len() ==> (#[trigger] out.products@[i]).formula@ == list[i].0
                && out.products@[i].composition@ == list[i].1
            &&& forall|i: int| 0 <= i < coeffs.len() ==> #[trigger] coeffs[i] > 0
            &&& balances(
                seq![r1.composition@, r2.composition@],
                list.map_values(|p: (Seq<char>, Entries)| p.1),
                coeffs,
            )
            &&& lowest_terms(coeffs)
            &&& balance_of(
                seq![r1.composition@, r2.composition@],
                list.map_values(|p: (Seq<char>, Entries)| p.1),
            ) == Some(coeffs)
            &&& unique_ratio(
                seq![r1.composition@, r2.composition@],
                list.map_values(|p: (Seq<char>, Entries)| p.1),
                coeffs,
            )
            &&& message_models(out.messages@) == diatomic_note(r1) + diatomic_note(r2)
        },
    }
}

/// Solving stays within `i64` and indexes no missing species.
pub open spec fn solve_fits(r1: Reactant, r2: Reactant) -> bool {
    prediction_fits(class_of(r1, r2), r1, r2)
}

fn unit_term_of(r: &Reactant) -> (t: BalancedTerm)
    ensures
        term_model(t) == unit_term(*r),
        r.composition.wf() ==> t.composition.wf(),
{
    BalancedTerm { coeff: 1, formula: r.formula.clone(), composition: r.composition.duplicate() }
}

/// The "only exists as X₂" note for a reactant, appended to `out`.
fn push_diatomic_note(out: &mut Vec<String>, r: &Reactant)
    ensures
        message_models(final(out)@) == message_models(old(out)@) + diatomic_note(*r),
{
    let ghost before = out@;
    let text = chars_of(r.formula.as_str());
    let ends_in_two = text.len() > 0 && text[text.len() - 1] == '₂';
    // A reactant without species has no symbol, and "" is not diatomic.
    let diatomic = r.species.len() > 0 && is_naturally_diatomic(r.species[0].symbol.as_str());
    if ends_in_two && diatomic {
        let sym = r.species[0].symbol.as_str();
        let mut note = chars_of(sym);
        extend_chars(&mut note, &chars_of(" only exists as "));
        extend_chars(&mut note, &chars_of(sym));
        extend_chars(&mut note, &chars_of("₂"));
        out.push(string_of(&note));
    }
    assert(message_models(out@) =~= message_models(before) + diatomic_note(*r));
}

/// Solve a reaction between `r1` and `r2`: classify, predict products, then
/// balance. An infeasible prediction is a result, not an error: the reactants
/// stand with coefficient 1, no products, and the reason as the message.
pub fn solve_reaction(r1: &Reactant, r2: &Reactant) -> (res: Result<ReactionResult, ReactionError>)
    requires
        r1.wf(),
        r2.wf(),
        solve_fits(*r1, *r2),
    ensures
        res matches Ok(out) ==> out.terms_wf() && solved_as(out, *r1, *r2),
        class_of(*r1, *r2) == ReactionClass::NoReaction <==> res == Err::<ReactionResult, ReactionError>(
            ReactionError::UnknownReactionClass,
        ),
        class_of(*r1, *r2) != ReactionClass::NoReaction ==> match prediction_of(class_of(*r1, *r2), *r1, *r2) {
            PredictionModel::Infeasible(_) => res is Ok,
            PredictionModel::Products(list) => {
                &&& list.len() == 0 ==> res == Err::<ReactionResult, ReactionError>(ReactionError::NoProducts)
                &&& list.len() > 0 ==> (res is Ok || res == Err::<ReactionResult, ReactionError>(ReactionError::Unbalanceable))
                &&& list.len() > 0 ==> (res is Ok <==> balance_of(
                    seq![r1.composition@, r2.composition@],
                    list.map_values(|p: (Seq<char>, Entries)| p.1),
                ) is Some)
            },
        },
{
    let cls = classify_reaction(r1, r2);
    if cls == ReactionClass::NoReaction {
        return Err(ReactionError::UnknownReactionClass);
    }
    let prediction = predict_products(cls, r1, r2);
    let product_list = match prediction {
        Prediction::Infeasible(reason) => {
            let reactants = vec![unit_term_of(r1), unit_term_of(r2)];
            assert(term_models(reactants@) =~= seq![unit_term(*r1), unit_term(*r2)]);
            let messages = vec![reason];
            assert(message_models(messages@) =~= seq![messages@[0]@]);
            return Ok(
                ReactionResult {
                    reaction_class: cls,
                    reactants,
                    products: Vec::new(),
                    messages,
                    feasible: false,
                },
            );
        },
        Prediction::Products(list) => {
            if list.len() == 0 {
                return Err(ReactionError::NoProducts);
            }
            list
        },
    };
    let ghost plist = product_list@.map_values(|x: Product| product_model(x));
    // Balance.
    let reactant_comps = vec![r1.composition.duplicate(), r2.composition.duplicate()];
    let mut product_comps: Vec<Composition> = Vec::new();
    let mut i: usize = 0;
    while i < product_list.len()
        invariant
            i <= product_list@.len(),
            plist == product_list@.map_values(|x: Product| product_model(x)),
            product_comps@.len() == i,
            forall|j: int| 0 <= j < i ==> (#[trigger] product_comps@[j])@ == plist[j].1,
        decreases product_list@.len() - i,
    {
        product_comps.push(product_list[i].composition.duplicate());
        i = i + 1;
    }
    assert(views(reactant_comps@) =~= seq![r1.composition@, r2.composition@]);
    assert(views(product_comps@) =~= plist.map_values(|p: (Seq<char>, Entries)| p.1));
    let coeffs = match balance(reactant_comps.as_slice(), product_comps.as_slice()) {
        Some(c) => c,
        None => return Err(ReactionError::Unbalanceable),
    };
    let coeff_a = coeffs[0];
    let coeff_b = coeffs[1];
    let mut products: Vec<BalancedTerm> = Vec::new();
    let mut i: usize = 0;
    while i < product_list.len()
        invariant
            i <= product_list@.len(),
            coeffs.len() == 2 + product_list.len(),
            plist == product_list@.map_values(|x: Product| product_model(x)),
            forall|j: int| 0 <= j < product_list@.len() ==> (#[trigger] product_list@[j]).composition.wf(),
            forall|j: int| 0 <= j < i ==> (#[trigger] products@[j]).composition.wf(),
            products@.len() == i,
            forall|j: int|
                0 <= j < i ==> (#[trigger] products@[j]).formula@ == plist[j].0
                    && products@[j].composition@ == plist[j].1 && products@[j].coeff == coeffs@[2 + j],
        decreases product_list@.len() - i,
    {
        let p = &product_list[i];
        products.push(
            BalancedTerm {
                coeff: coeffs[i + 2],
                formula: p.formula.clone(),
                composition: p.composition.duplicate(),
            },
        );
        i = i + 1;
    }
    let mut messages: Vec<String> = Vec::new();
    assert(message_models(messages@) =~= Seq::<Seq<char>>::empty());
    push_diatomic_note(&mut messages, r1);
    push_diatomic_note(&mut messages, r2);
    assert(Seq::<Seq<char>>::empty() + diatomic_note(*r1) =~= diatomic_note(*r1));
    let reactants = vec![
        BalancedTerm {
            coeff: coeff_a,
            formula: r1.formula.clone(),
            composition: r1.composition.duplicate(),
        },
        BalancedTerm {
            coeff: coeff_b,
            formula: r2.formula.clone(),
            composition: r2.composition.duplicate(),
        },
    ];
    let out = ReactionResult {
        reaction_class: cls,
        reactants,
        products,
        messages,
        feasible: true,
    };
    assert(seq![out.reactants@[0].coeff, out.reactants@[1].coeff] + out.products@.map_values(
        |t: BalancedTerm| t.coeff,
    ) =~= coeffs@);
    Ok(out)
}

} // verus!

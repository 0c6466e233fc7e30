//! Heuristic standard-state of a synthesised product compound.
use crate::bonding::BondingType;
use crate::element::StateOfMatter;
use crate::text::str_eq;
use vstd::prelude::*;

verus! {

/// The standard-state physical form of a result compound, for the result badge.
#[derive(Debug, Clone, Copy, PartialEq, Eq, Structural)]
pub enum ProductState {
    Solid,
    Liquid,
    Gas,
}

impl ProductState {
    pub fn label(self) -> (s: &'static str)
        ensures
            s@ == match self {
                ProductState::Solid => "Solid"@,
                ProductState::Liquid => "Liquid"@,
                ProductState::Gas => "Gas"@,
            },
    {
        match self {
            ProductState::Solid => "Solid",
            ProductState::Liquid => "Liquid",
            ProductState::Gas => "Gas",
        }
    }
}

/// Ionic and metallic products are lattices (solid); a covalent product is a
/// gas when either constituent is, else a liquid when either is, else a solid,
/// except that hydrogen with oxygen (water) is a liquid.
pub open spec fn product_state_of(
    bonding: BondingType,
    a_symbol: Seq<char>,
    a_state: StateOfMatter,
    b_symbol: Seq<char>,
    b_state: StateOfMatter,
) -> ProductState {
    match bonding {
        BondingType::Covalent => {
            if (a_symbol == "H"@ && b_symbol == "O"@) || (a_symbol == "O"@ && b_symbol == "H"@) {
                ProductState::Liquid
            } else if a_state == StateOfMatter::Gas || b_state == StateOfMatter::Gas {
                ProductState::Gas
            } else if a_state == StateOfMatter::Liquid || b_state == StateOfMatter::Liquid {
                ProductState::Liquid
            } else {
                ProductState::Solid
            }
        },
        _ => ProductState::Solid,
    }
}

/// Heuristic standard-state (~25 °C, 1 atm) of the product compound. Deliberately
/// approximate, for teaching.
pub fn predict_product_state(
    bonding: BondingType,
    a_symbol: &str,
    a_state: StateOfMatter,
    b_symbol: &str,
    b_state: StateOfMatter,
) -> (r: ProductState)
    ensures
        r == product_state_of(bonding, a_symbol@, a_state, b_symbol@, b_state),
        bonding != BondingType::Covalent ==> r == ProductState::Solid,
        bonding == BondingType::Covalent && ((a_symbol@ == "H"@ && b_symbol@ == "O"@) || (
        a_symbol@ == "O"@ && b_symbol@ == "H"@)) ==> r == ProductState::Liquid,
        bonding == BondingType::Covalent && !((a_symbol@ == "H"@ && b_symbol@ == "O"@) || (
        a_symbol@ == "O"@ && b_symbol@ == "H"@)) ==> (r == ProductState::Gas <==> (a_state
            == StateOfMatter::Gas || b_state == StateOfMatter::Gas)),
        bonding == BondingType::Covalent && !((a_symbol@ == "H"@ && b_symbol@ == "O"@) || (
        a_symbol@ == "O"@ && b_symbol@ == "H"@)) && a_state != StateOfMatter::Gas && b_state
            != StateOfMatter::Gas ==> (r == ProductState::Liquid <==> (a_state
            == StateOfMatter::Liquid || b_state == StateOfMatter::Liquid)),
{
    match bonding {
        BondingType::Ionic => ProductState::Solid,
        BondingType::Metallic => ProductState::Solid,
        BondingType::Covalent => {
            let water = (str_eq(a_symbol, "H") && str_eq(b_symbol, "O")) || (str_eq(a_symbol, "O")
                && str_eq(b_symbol, "H"));
            if water {
                return ProductState::Liquid;
            }
            if a_state == StateOfMatter::Gas || b_state == StateOfMatter::Gas {
                ProductState::Gas
            } else if a_state == StateOfMatter::Liquid || b_state == StateOfMatter::Liquid {
                ProductState::Liquid
            } else {
                ProductState::Solid
            }
        },
    }
}

/// Ionic and metallic products are solid. Of covalent products, water (H with
/// O, either order) is a liquid; any other covalent product is a gas exactly
/// when either constituent is a gas, whatever the state of the other one;
/// with no gaseous constituent it is a liquid exactly when either constituent
/// is a liquid, and otherwise a solid.
pub proof fn law_product_state_cases(
    bonding: BondingType,
    a_symbol: Seq<char>,
    a_state: StateOfMatter,
    b_symbol: Seq<char>,
    b_state: StateOfMatter,
)
    ensures
        ({
            let r = product_state_of(bonding, a_symbol, a_state, b_symbol, b_state);
            let water = (a_symbol == "H"@ && b_symbol == "O"@) || (a_symbol == "O"@ && b_symbol
                == "H"@);
            let any_gas = a_state == StateOfMatter::Gas || b_state == StateOfMatter::Gas;
            let any_liquid = a_state == StateOfMatter::Liquid || b_state == StateOfMatter::Liquid;
            &&& bonding == BondingType::Ionic ==> r == ProductState::Solid
            &&& bonding == BondingType::Metallic ==> r == ProductState::Solid
            &&& bonding == BondingType::Covalent && water ==> r == ProductState::Liquid
            &&& bonding == BondingType::Covalent && !water && any_gas ==> r == ProductState::Gas
            &&& bonding == BondingType::Covalent && !water && !any_gas && any_liquid ==> r
                == ProductState::Liquid
            &&& bonding == BondingType::Covalent && !water && !any_gas && !any_liquid ==> r
                == ProductState::Solid
        }),
{
}

/// The predicted state does not depend on the order of the two constituents.
pub proof fn law_product_state_symmetric(
    bonding: BondingType,
    a_symbol: Seq<char>,
    a_state: StateOfMatter,
    b_symbol: Seq<char>,
    b_state: StateOfMatter,
)
    ensures
        product_state_of(bonding, a_symbol, a_state, b_symbol, b_state) == product_state_of(
            bonding,
            b_symbol,
            b_state,
            a_symbol,
            a_state,
        ),
{
}

} // verus!

//! What tokens cost.
use vstd::prelude::*;

use crate::text::{begins, law_begins, text_begins};

verus! {

/// What a thousand tokens cost, in hundred-thousandths of a dollar.
#[derive(Clone, Copy, PartialEq, Eq, Structural)]
pub struct Price {
    pub input: u64,
    pub output: u64,
}

/// What the tokens of a model cost. A model without a price costs nothing.
pub open spec fn price_of(model: Seq<char>) -> Price {
    if begins(model, "gpt-4o-mini"@) {
        Price { input: 15, output: 60 }
    } else if begins(model, "gpt-4o"@) {
        Price { input: 500, output: 1500 }
    } else {
        Price { input: 0, output: 0 }
    }
}

/// What the tokens of a model cost.
pub fn get_model_price(model: &str) -> (r: Price)
    ensures
        r == price_of(model@),
{
    if text_begins(model, "gpt-4o-mini") {
        Price { input: 15, output: 60 }
    } else if text_begins(model, "gpt-4o") {
        Price { input: 500, output: 1500 }
    } else {
        Price { input: 0, output: 0 }
    }
}

/// A model costs what the longest of the two priced names that it begins with costs, and nothing
/// where it begins with neither.
pub proof fn law_prices(rest: Seq<char>, model: Seq<char>)
    ensures
        price_of("gpt-4o-mini"@ + rest) == (Price { input: 15, output: 60 }),
        !("gpt-4o"@ + rest == "gpt-4o-mini"@ + rest.skip(5)) ==> price_of("gpt-4o"@ + rest) == (
        Price { input: 500, output: 1500 }),
        model.len() < 6 || model.take(6) != "gpt-4o"@ ==> price_of(model) == (Price {
            input: 0,
            output: 0,
        }),
{
    reveal_strlit("gpt-4o-mini");
    reveal_strlit("gpt-4o");
    law_begins("gpt-4o-mini"@ + rest, "gpt-4o-mini"@, rest);
    let m = "gpt-4o"@ + rest;
    law_begins(m, "gpt-4o"@, rest);
    law_begins(m, "gpt-4o-mini"@, rest);
    if begins(m, "gpt-4o-mini"@) {
        assert(m.skip(11) =~= rest.skip(5));
    }
    if begins(model, "gpt-4o-mini"@) {
        assert(model.take(6) =~= "gpt-4o-mini"@.take(6)) by {
            assert(model.take(11).take(6) =~= model.take(6));
        }
        assert("gpt-4o-mini"@.take(6) =~= "gpt-4o"@);
    }
}

} // verus!

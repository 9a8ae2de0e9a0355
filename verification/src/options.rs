//! Display options: the order in which polynomial coefficients are shown and the names of
//! the variables.

use vstd::prelude::*;
use crate::text::{push_str, push_string};

verus! {

/// Whether polynomials are shown from the highest degree down or from the lowest up.
#[derive(Debug, Clone, Copy, PartialEq, Eq, Structural)]
pub enum CoeffOrder {
    Desc,
    Asc,
}

/// How polynomials and field elements are displayed.
#[derive(Debug)]
pub struct PrintOptions {
    pub coeff_order: CoeffOrder,
    pub poly_var: String,
    pub field_var: String,
}

fn copy_string(s: &String) -> (r: String)
    ensures
        r@ == s@,
{
    let mut out = String::new();
    push_string(&mut out, s);
    assert(Seq::<char>::empty() + s@ =~= s@);
    out
}

impl Default for PrintOptions {
    /// Highest degree first, polynomial variable `x`, field variable `α`.
    fn default() -> (r: Self)
        ensures
            r.coeff_order == CoeffOrder::Desc,
            r.poly_var@ == seq!['x'],
            r.field_var@ == seq!['\u{3b1}'],
    {
        let mut poly_var = String::new();
        push_str(&mut poly_var, "x");
        let mut field_var = String::new();
        push_str(&mut field_var, "\u{3b1}");
        proof {
            reveal_strlit("x");
            reveal_strlit("\u{3b1}");
            assert(poly_var@ =~= seq!['x']);
            assert(field_var@ =~= seq!['\u{3b1}']);
        }
        PrintOptions { coeff_order: CoeffOrder::Desc, poly_var, field_var }
    }
}

/// A copy of the options.
pub fn get_printoptions(opts: &PrintOptions) -> (r: PrintOptions)
    ensures
        r.coeff_order == opts.coeff_order,
        r.poly_var@ == opts.poly_var@,
        r.field_var@ == opts.field_var@,
{
    PrintOptions {
        coeff_order: opts.coeff_order,
        poly_var: copy_string(&opts.poly_var),
        field_var: copy_string(&opts.field_var),
    }
}

/// Sets the order in which coefficients are shown.
pub fn set_printoptions(opts: &mut PrintOptions, coeff_order: CoeffOrder)
    ensures
        final(opts).coeff_order == coeff_order,
        final(opts).poly_var@ == old(opts).poly_var@,
        final(opts).field_var@ == old(opts).field_var@,
{
    opts.coeff_order = coeff_order;
}

/// The name of the polynomial variable.
pub fn poly_var(opts: &PrintOptions) -> (r: String)
    ensures
        r@ == opts.poly_var@,
{
    copy_string(&opts.poly_var)
}

/// The name of the field variable.
pub fn field_var(opts: &PrintOptions) -> (r: String)
    ensures
        r@ == opts.field_var@,
{
    copy_string(&opts.field_var)
}

} // verus!

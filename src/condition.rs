//! Which conditions may be evaluated: only the comparison and connective
//! operators, nested at most `MAX_DEPTH` levels deep.

use vstd::prelude::*;
use crate::external::{jsonlogic_holds, logic_holds};
use crate::json::{JVal, JsonValue, text_eq};

verus! {

/// The deepest nesting of objects and arrays a condition may have.
pub const MAX_DEPTH: u32 = 64;

/// The operators a condition may use.
pub open spec fn allowed_op(op: Seq<char>) -> bool {
    op == "=="@ || op == "!="@ || op == "in"@ || op == "<"@ || op == "<="@ || op == ">"@ || op == ">="@
        || op == "and"@ || op == "or"@ || op == "!"@ || op == "var"@
}

/// Every object in `v` is one allowed operator with its argument, and objects
/// and arrays nest at most `fuel` levels deep.
pub open spec fn logic_ok(v: JVal, fuel: nat) -> bool
    decreases fuel,
{
    if fuel == 0 {
        false
    } else {
        match v {
            JVal::Obj(ks, vs) => ks.len() == 1 && vs.len() == 1 && allowed_op(ks[0]) && logic_ok(vs[0], (fuel - 1) as nat),
            JVal::Arr(a) => forall|i: int| 0 <= i < a.len() ==> logic_ok(#[trigger] a[i], (fuel - 1) as nat),
            _ => true,
        }
    }
}

/// A condition that may be evaluated.
pub open spec fn safe_condition(v: JVal) -> bool {
    logic_ok(v, MAX_DEPTH as nat)
}

/// A condition holds on `data`: it may be evaluated, and evaluates to true.
pub open spec fn holds(rule: JVal, data: JVal) -> bool {
    safe_condition(rule) && jsonlogic_holds(rule, data)
}

fn is_allowed_op(op: &str) -> (r: bool)
    ensures
        r == allowed_op(op@),
{
    text_eq(op, "==") || text_eq(op, "!=") || text_eq(op, "in") || text_eq(op, "<") || text_eq(op, "<=")
        || text_eq(op, ">") || text_eq(op, ">=") || text_eq(op, "and") || text_eq(op, "or") || text_eq(op, "!")
        || text_eq(op, "var")
}

fn check_logic(v: &JsonValue, fuel: u32) -> (r: bool)
    ensures
        r == logic_ok(v@, fuel as nat),
    decreases fuel,
{
    if fuel == 0 {
        return false;
    }
    match v {
        JsonValue::Object(ms) => {
            if ms.len() != 1 {
                assert(v@->Obj_0.len() == ms.len());
                return false;
            }
            assert(v@->Obj_0[0] == ms[0].key@);
            assert(v@->Obj_1[0] == ms[0].value@);
            is_allowed_op(ms[0].key.as_str()) && check_logic(&ms[0].value, fuel - 1)
        },
        JsonValue::Array(items) => {
            let mut i: usize = 0;
            while i < items.len()
                invariant
                    *v == JsonValue::Array(*items),
                    fuel > 0,
                    i <= items.len(),
                    forall|j: int| 0 <= j < i ==> logic_ok(#[trigger] v@->Arr_0[j], (fuel - 1) as nat),
                decreases items.len() - i,
            {
                assert(v@->Arr_0[i as int] == items[i as int]@);
                if !check_logic(&items[i], fuel - 1) {
                    return false;
                }
                i += 1;
            }
            assert(v@->Arr_0.len() == items.len());
            true
        },
        _ => true,
    }
}

/// Whether a condition may be evaluated.
pub fn is_safe_condition(v: &JsonValue) -> (r: bool)
    ensures
        r == safe_condition(v@),
{
    check_logic(v, MAX_DEPTH)
}

/// Whether a condition holds on `data`; one that may not be evaluated does not hold.
pub fn condition_holds(rule: &JsonValue, data: &JsonValue) -> (r: bool)
    ensures
        r == holds(rule@, data@),
{
    if is_safe_condition(rule) {
        logic_holds(rule, data)
    } else {
        false
    }
}

} // verus!

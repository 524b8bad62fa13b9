//! Filtering a named-platform table by a predicate expression.

use vstd::prelude::*;

verus! {

use crate::config::PlatformConfig;
use crate::config::PlatformName;
use crate::config::PlatformExpr;
use crate::pred::PlatformPredicate;
use crate::pred::PredView;
use crate::pred::eval_view;
use crate::parse::parse_cfg;
use crate::parse::Step;
use crate::parse::PredicateParseError;

/// The names of the table entries whose config satisfies `p`, in table order.
pub open spec fn matching_names(
    t: Seq<(PlatformName, PlatformConfig)>,
    p: PredView,
) -> Seq<Seq<char>>
    decreases t,
{
    if t.len() == 0 {
        Seq::empty()
    } else {
        (if eval_view(p, t[0].1@) {
            seq![t[0].0@]
        } else {
            Seq::empty()
        }) + matching_names(t.skip(1), p)
    }
}

/// The texts of a list of names, in order.
pub open spec fn names_view(v: Seq<PlatformName>) -> Seq<Seq<char>> {
    Seq::new(v.len(), |i: int| v[i]@)
}

/// Parse `expr` once and return the names of exactly those platforms in the
/// table whose config satisfies it, in table order. A parse failure is
/// propagated unchanged and the table is not consulted.
#[verifier::loop_isolation(false)]
pub fn platform_names_for_expr(
    platforms: &Vec<(PlatformName, PlatformConfig)>,
    expr: &PlatformExpr,
) -> (res: Result<Vec<PlatformName>, PredicateParseError>)
    ensures
        match res {
            Ok(names) => {
                &&& parse_cfg(expr@) is Done
                &&& parse_cfg(expr@)->Done_1.len() == 0
                &&& names_view(names@) == matching_names(platforms@, parse_cfg(expr@)->Done_0)
            },
            Err(e) => match e {
                PredicateParseError::TrailingJunk(j) => parse_cfg(expr@) is Done && parse_cfg(
                    expr@,
                )->Done_1 == j@ && j@.len() > 0,
                PredicateParseError::Incomplete => parse_cfg(expr@) is Short,
                PredicateParseError::ParseError(m) => parse_cfg(expr@) is Reject,
            },
        },
{
    let pred = match PlatformPredicate::parse(expr) {
        Ok(p) => p,
        Err(e) => {
            return Err(e);
        },
    };
    let ghost pv = pred@;
    let ghost t = platforms@;
    let mut names: Vec<PlatformName> = Vec::new();
    proof {
        assert(t.skip(0) =~= t);
        assert(names_view(names@) =~= Seq::<Seq<char>>::empty());
        assert(names_view(names@) + matching_names(t, pv) =~= matching_names(t, pv));
    }
    let mut i: usize = 0;
    while i < platforms.len()
        invariant
            i <= t.len(),
            names_view(names@) + matching_names(t.skip(i as int), pv) == matching_names(t, pv),
        decreases t.len() - i,
    {
        let ghost old_names = names@;
        if pred.eval(&platforms[i].1) {
            let name = platforms[i].0.clone();
            names.push(name);
        }
        proof {
            assert(t.skip(i as int)[0] == t[i as int]);
            assert(t.skip(i as int).skip(1) =~= t.skip(i as int + 1));
            if eval_view(pv, t[i as int].1@) {
                assert(names_view(names@) =~= names_view(old_names) + seq![t[i as int].0@]);
                assert(names_view(names@) + matching_names(t.skip(i as int + 1), pv)
                    =~= names_view(old_names) + matching_names(t.skip(i as int), pv));
            } else {
                assert(names_view(names@) + matching_names(t.skip(i as int + 1), pv)
                    =~= names_view(old_names) + matching_names(t.skip(i as int), pv));
            }
        }
        i = i + 1;
    }
    proof {
        assert(t.skip(i as int) =~= Seq::<(PlatformName, PlatformConfig)>::empty());
        assert(names_view(names@) + matching_names(t.skip(i as int), pv) =~= names_view(names@));
    }
    Ok(names)
}

} // verus!

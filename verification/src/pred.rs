//! The predicate tree, its evaluation semantics against a platform's
//! attribute map, and the printable predicate syntax.

use vstd::prelude::*;

verus! {

use vstd::string::StringExecFns;
use crate::config::PlatformConfig;

/// Platform predicate which can be matched against a `PlatformConfig`.
///
/// Leaf keys and values are owned copies of the text they were parsed from,
/// so a predicate may outlive its source expression.
#[derive(Debug, PartialEq, Eq)]
pub enum PlatformPredicate {
    // Operators
    Any(Vec<PlatformPredicate>),
    All(Vec<PlatformPredicate>),
    Not(Box<PlatformPredicate>),
    // Predicates
    Value { key: String, value: String },
    Bool { key: String },
    // Helpers
    Unix,
    Windows,
}

/// The abstract form of a predicate: the same tree over character sequences.
pub enum PredView {
    Any(Seq<PredView>),
    All(Seq<PredView>),
    Not(Box<PredView>),
    Value { key: Seq<char>, value: Seq<char> },
    Bool { key: Seq<char> },
    Unix,
    Windows,
}

/// The abstract forms of a list of predicates, in order.
pub open spec fn preds_view(s: Seq<PlatformPredicate>) -> Seq<PredView>
    decreases s,
{
    if s.len() == 0 {
        Seq::empty()
    } else {
        preds_view(s.drop_last()).push(pred_view(s.last()))
    }
}

/// The abstract form of a predicate.
pub open spec fn pred_view(p: PlatformPredicate) -> PredView
    decreases p,
{
    match p {
        PlatformPredicate::Any(ps) => PredView::Any(preds_view(ps@)),
        PlatformPredicate::All(ps) => PredView::All(preds_view(ps@)),
        PlatformPredicate::Not(q) => PredView::Not(Box::new(pred_view(*q))),
        PlatformPredicate::Value { key, value } => PredView::Value { key: key@, value: value@ },
        PlatformPredicate::Bool { key } => PredView::Bool { key: key@ },
        PlatformPredicate::Unix => PredView::Unix,
        PlatformPredicate::Windows => PredView::Windows,
    }
}

impl View for PlatformPredicate {
    type V = PredView;

    open spec fn view(&self) -> PredView {
        pred_view(*self)
    }
}

/// `preds_view` maps the list elementwise.
pub proof fn lemma_preds_view(s: Seq<PlatformPredicate>)
    ensures
        preds_view(s).len() == s.len(),
        forall|i: int| 0 <= i < s.len() ==> #[trigger] preds_view(s)[i] == pred_view(s[i]),
    decreases s,
{
    if s.len() > 0 {
        lemma_preds_view(s.drop_last());
    }
}

/// Whether `value` is acceptable for `key` under map `m`: an absent key is
/// a wildcard, a present key constrains the value to its recorded set.
pub open spec fn value_ok(m: Map<Seq<char>, Set<Seq<char>>>, key: Seq<char>, value: Seq<char>) -> bool {
    !m.dom().contains(key) || m[key].contains(value)
}

/// The meaning of the `unix` / `windows` sugar leaves: the bare flag is
/// present, or `target_family` admits the family name.
pub open spec fn family_eval(m: Map<Seq<char>, Set<Seq<char>>>, family: Seq<char>) -> bool {
    m.dom().contains(family) || value_ok(m, "target_family"@, family)
}

/// Truth of a predicate against an attribute map.
pub open spec fn eval_view(p: PredView, m: Map<Seq<char>, Set<Seq<char>>>) -> bool
    decreases p,
{
    match p {
        PredView::Bool { key } => m.dom().contains(key),
        PredView::Value { key, value } => value_ok(m, key, value),
        PredView::Not(q) => !eval_view(*q, m),
        PredView::Any(ps) => eval_any(ps, m),
        PredView::All(ps) => eval_all(ps, m),
        PredView::Unix => family_eval(m, "unix"@),
        PredView::Windows => family_eval(m, "windows"@),
    }
}

/// Truth of a disjunction: some element holds. An empty list is false.
pub open spec fn eval_any(ps: Seq<PredView>, m: Map<Seq<char>, Set<Seq<char>>>) -> bool
    decreases ps,
{
    if ps.len() == 0 {
        false
    } else {
        eval_view(ps[0], m) || eval_any(ps.skip(1), m)
    }
}

/// Truth of a conjunction: every element holds. An empty list is true.
pub open spec fn eval_all(ps: Seq<PredView>, m: Map<Seq<char>, Set<Seq<char>>>) -> bool
    decreases ps,
{
    if ps.len() == 0 {
        true
    } else {
        eval_view(ps[0], m) && eval_all(ps.skip(1), m)
    }
}

/// A disjunction holds exactly when some element does.
pub proof fn lemma_eval_any_exists(ps: Seq<PredView>, m: Map<Seq<char>, Set<Seq<char>>>)
    ensures
        eval_any(ps, m) <==> exists|i: int| 0 <= i < ps.len() && eval_view(ps[i], m),
    decreases ps,
{
    if ps.len() > 0 {
        lemma_eval_any_exists(ps.skip(1), m);
        if eval_any(ps.skip(1), m) {
            let i = choose|i: int| 0 <= i < ps.skip(1).len() && eval_view(ps.skip(1)[i], m);
            assert(ps[i + 1] == ps.skip(1)[i]);
        }
        if exists|i: int| 0 <= i < ps.len() && eval_view(ps[i], m) {
            let i = choose|i: int| 0 <= i < ps.len() && eval_view(ps[i], m);
            if i > 0 {
                assert(ps.skip(1)[i - 1] == ps[i]);
            }
        }
    }
}

/// A conjunction holds exactly when every element does.
pub proof fn lemma_eval_all_forall(ps: Seq<PredView>, m: Map<Seq<char>, Set<Seq<char>>>)
    ensures
        eval_all(ps, m) <==> forall|i: int| 0 <= i < ps.len() ==> eval_view(ps[i], m),
    decreases ps,
{
    if ps.len() > 0 {
        lemma_eval_all_forall(ps.skip(1), m);
        if eval_all(ps, m) {
            assert forall|i: int| 0 <= i < ps.len() implies eval_view(ps[i], m) by {
                if i > 0 {
                    assert(ps.skip(1)[i - 1] == ps[i]);
                }
            }
        }
        if forall|i: int| 0 <= i < ps.len() ==> eval_view(ps[i], m) {
            assert forall|i: int| 0 <= i < ps.skip(1).len() implies eval_view(ps.skip(1)[i], m) by {
                assert(ps.skip(1)[i] == ps[i + 1]);
            }
        }
    }
}

impl PlatformPredicate {
    /// Evaluate this predicate against one platform's attributes.
    #[verifier::loop_isolation(false)]
    pub fn eval(&self, config: &PlatformConfig) -> (r: bool)
        ensures
            r == eval_view(self@, config@),
        decreases *self,
    {
        match self {
            PlatformPredicate::Bool { key } => config.has_key(key.as_str()),
            PlatformPredicate::Value { key, value } => config.value_matches(
                key.as_str(),
                value.as_str(),
            ),
            PlatformPredicate::Not(q) => !q.eval(config),
            PlatformPredicate::Any(ps) => {
                proof {
                    lemma_preds_view(ps@);
                }
                let ghost vs = preds_view(ps@);
                proof {
                    assert(vs.skip(0) =~= vs);
                }
                let mut i: usize = 0;
                while i < ps.len()
                    invariant
                        i <= ps@.len(),
                        vs == preds_view(ps@),
                        vs.len() == ps@.len(),
                        forall|j: int| 0 <= j < ps@.len() ==> #[trigger] vs[j] == pred_view(ps@[j]),
                        eval_any(vs, config@) == eval_any(vs.skip(i as int), config@),
                    decreases ps@.len() - i,
                {
                    if ps[i].eval(config) {
                        proof {
                            assert(vs.skip(i as int)[0] == vs[i as int]);
                        }
                        return true;
                    }
                    proof {
                        assert(vs.skip(i as int)[0] == vs[i as int]);
                        assert(vs.skip(i as int).skip(1) =~= vs.skip(i as int + 1));
                    }
                    i = i + 1;
                }
                proof {
                    assert(vs.skip(i as int) =~= Seq::<PredView>::empty());
                }
                false
            },
            PlatformPredicate::All(ps) => {
                proof {
                    lemma_preds_view(ps@);
                }
                let ghost vs = preds_view(ps@);
                proof {
                    assert(vs.skip(0) =~= vs);
                }
                let mut i: usize = 0;
                while i < ps.len()
                    invariant
                        i <= ps@.len(),
                        vs == preds_view(ps@),
                        vs.len() == ps@.len(),
                        forall|j: int| 0 <= j < ps@.len() ==> #[trigger] vs[j] == pred_view(ps@[j]),
                        eval_all(vs, config@) == eval_all(vs.skip(i as int), config@),
                    decreases ps@.len() - i,
                {
                    if !ps[i].eval(config) {
                        proof {
                            assert(vs.skip(i as int)[0] == vs[i as int]);
                        }
                        return false;
                    }
                    proof {
                        assert(vs.skip(i as int)[0] == vs[i as int]);
                        assert(vs.skip(i as int).skip(1) =~= vs.skip(i as int + 1));
                    }
                    i = i + 1;
                }
                proof {
                    assert(vs.skip(i as int) =~= Seq::<PredView>::empty());
                }
                true
            },
            PlatformPredicate::Unix => self.target_family_bool("unix", config),
            PlatformPredicate::Windows => self.target_family_bool("windows", config),
        }
    }

    fn target_family_bool(&self, family: &str, config: &PlatformConfig) -> (r: bool)
        ensures
            r == family_eval(config@, family@),
    {
        config.has_key(family) || config.value_matches("target_family", family)
    }
}

/// The canonical text of a predicate, in re-parseable syntax (without the
/// wrapping `cfg( )`).
pub open spec fn print_pred(p: PredView) -> Seq<char>
    decreases p,
{
    match p {
        PredView::Bool { key } => key,
        PredView::Value { key, value } => key + " = \""@ + value + "\""@,
        PredView::Not(q) => "not("@ + print_pred(*q) + ")"@,
        PredView::Any(ps) => "any("@ + print_list(ps) + ")"@,
        PredView::All(ps) => "all("@ + print_list(ps) + ")"@,
        PredView::Unix => "unix"@,
        PredView::Windows => "windows"@,
    }
}

/// The text of a predicate list, elements separated by `", "`.
pub open spec fn print_list(ps: Seq<PredView>) -> Seq<char>
    decreases ps,
{
    if ps.len() == 0 {
        Seq::empty()
    } else {
        print_pred(ps[0]) + print_rest(ps.skip(1))
    }
}

/// The text of the tail of a predicate list: a `", "` before each element.
pub open spec fn print_rest(ps: Seq<PredView>) -> Seq<char>
    decreases ps,
{
    if ps.len() == 0 {
        Seq::empty()
    } else {
        ", "@ + print_pred(ps[0]) + print_rest(ps.skip(1))
    }
}

impl PlatformPredicate {
    /// Print this predicate in the canonical syntax, which parses back to an
    /// equivalent predicate once re-wrapped in `cfg( )`.
    pub fn to_expr_string(&self) -> (r: String)
        ensures
            r@ == print_pred(self@),
    {
        let mut out = String::new();
        self.write_pred(&mut out);
        proof {
            assert(Seq::<char>::empty() + print_pred(self@) =~= print_pred(self@));
        }
        out
    }

    fn write_pred(&self, out: &mut String)
        ensures
            final(out)@ == old(out)@ + print_pred(self@),
        decreases *self,
    {
        match self {
            PlatformPredicate::Bool { key } => {
                out.append(key.as_str());
            },
            PlatformPredicate::Value { key, value } => {
                out.append(key.as_str());
                out.append(" = \"");
                out.append(value.as_str());
                out.append("\"");
                proof {
                    assert(final(out)@ =~= old(out)@ + print_pred(self@));
                }
            },
            PlatformPredicate::Not(q) => {
                out.append("not(");
                q.write_pred(out);
                out.append(")");
                proof {
                    assert(final(out)@ =~= old(out)@ + print_pred(self@));
                }
            },
            PlatformPredicate::Any(ps) => {
                out.append("any(");
                Self::write_list(ps, out);
                out.append(")");
                proof {
                    assert(final(out)@ =~= old(out)@ + print_pred(self@));
                }
            },
            PlatformPredicate::All(ps) => {
                out.append("all(");
                Self::write_list(ps, out);
                out.append(")");
                proof {
                    assert(final(out)@ =~= old(out)@ + print_pred(self@));
                }
            },
            PlatformPredicate::Unix => {
                out.append("unix");
            },
            PlatformPredicate::Windows => {
                out.append("windows");
            },
        }
    }

    fn write_list(ps: &Vec<PlatformPredicate>, out: &mut String)
        ensures
            final(out)@ == old(out)@ + print_list(preds_view(ps@)),
        decreases *ps,
    {
        proof {
            lemma_preds_view(ps@);
        }
        let ghost vs = preds_view(ps@);
        if ps.len() == 0 {
            proof {
                assert(old(out)@ + print_list(vs) =~= old(out)@);
            }
            return;
        }
        ps[0].write_pred(out);
        let mut i: usize = 1;
        while i < ps.len()
            invariant
                1 <= i <= ps@.len(),
                vs == preds_view(ps@),
                vs.len() == ps@.len(),
                forall|j: int| 0 <= j < ps@.len() ==> #[trigger] vs[j] == pred_view(ps@[j]),
                out@ + print_rest(vs.skip(i as int)) == old(out)@ + print_list(vs),
            decreases ps@.len() - i,
        {
            out.append(", ");
            ps[i].write_pred(out);
            proof {
                assert(vs.skip(i as int)[0] == vs[i as int]);
                assert(vs.skip(i as int).skip(1) =~= vs.skip(i as int + 1));
                assert(out@ + print_rest(vs.skip(i as int + 1)) =~= old(out)@ + print_list(vs));
            }
            i = i + 1;
        }
        proof {
            assert(vs.skip(i as int) =~= Seq::<PredView>::empty());
            assert(out@ + print_rest(vs.skip(i as int)) =~= out@);
        }
    }
}

impl Clone for PlatformPredicate {
    fn clone(&self) -> (r: Self)
        ensures
            r@ == self@,
        decreases *self,
    {
        match self {
            PlatformPredicate::Any(ps) => PlatformPredicate::Any(clone_preds(ps)),
            PlatformPredicate::All(ps) => PlatformPredicate::All(clone_preds(ps)),
            PlatformPredicate::Not(q) => PlatformPredicate::Not(Box::new((**q).clone())),
            PlatformPredicate::Value { key, value } => PlatformPredicate::Value {
                key: key.clone(),
                value: value.clone(),
            },
            PlatformPredicate::Bool { key } => PlatformPredicate::Bool { key: key.clone() },
            PlatformPredicate::Unix => PlatformPredicate::Unix,
            PlatformPredicate::Windows => PlatformPredicate::Windows,
        }
    }
}

fn clone_preds(ps: &Vec<PlatformPredicate>) -> (r: Vec<PlatformPredicate>)
    ensures
        preds_view(r@) == preds_view(ps@),
    decreases *ps,
{
    proof {
        lemma_preds_view(ps@);
    }
    let mut out: Vec<PlatformPredicate> = Vec::new();
    let mut i: usize = 0;
    proof {
        assert(ps@.take(0) =~= Seq::<PlatformPredicate>::empty());
    }
    while i < ps.len()
        invariant
            i <= ps@.len(),
            preds_view(out@) == preds_view(ps@.take(i as int)),
        decreases ps@.len() - i,
    {
        let ghost old_out = out@;
        let c = ps[i].clone();
        out.push(c);
        proof {
            assert(out@.drop_last() =~= old_out);
            assert(ps@.take(i as int + 1).drop_last() =~= ps@.take(i as int));
            assert(ps@.take(i as int + 1).last() == ps@[i as int]);
            assert(out@.last()@ == ps@[i as int]@);
        }
        i = i + 1;
    }
    proof {
        assert(ps@.take(i as int) =~= ps@);
    }
    out
}

/// Presence semantics: a bare-key predicate holds exactly when the key is
/// present in the map, whatever values it holds (even none).
pub proof fn lemma_presence_semantics(key: Seq<char>, c: Map<Seq<char>, Set<Seq<char>>>)
    ensures
        eval_view(PredView::Bool { key }, c) == c.dom().contains(key),
{
}

/// Wildcard semantics: a value predicate on an absent key holds, for every
/// value.
pub proof fn lemma_wildcard_semantics(
    key: Seq<char>,
    value: Seq<char>,
    c: Map<Seq<char>, Set<Seq<char>>>,
)
    requires
        !c.dom().contains(key),
    ensures
        eval_view(PredView::Value { key, value }, c) == true,
{
}

/// Membership semantics: a value predicate on a present key holds exactly
/// when the value is among the recorded ones.
pub proof fn lemma_membership_semantics(
    key: Seq<char>,
    value: Seq<char>,
    c: Map<Seq<char>, Set<Seq<char>>>,
)
    requires
        c.dom().contains(key),
    ensures
        eval_view(PredView::Value { key, value }, c) == c[key].contains(value),
{
}

/// Empty-operator identities: an empty disjunction is false, an empty
/// conjunction is true, for every map.
pub proof fn lemma_empty_operators(c: Map<Seq<char>, Set<Seq<char>>>)
    ensures
        eval_view(PredView::Any(Seq::empty()), c) == false,
        eval_view(PredView::All(Seq::empty()), c) == true,
{
    assert(eval_any(Seq::empty(), c) == false);
    assert(eval_all(Seq::empty(), c) == true);
}

/// De Morgan consistency: negating a two-element conjunction agrees with the
/// disjunction of the negations, for all predicates and maps.
pub proof fn lemma_de_morgan(a: PredView, b: PredView, c: Map<Seq<char>, Set<Seq<char>>>)
    ensures
        eval_view(PredView::Not(Box::new(PredView::All(seq![a, b]))), c) == eval_view(
            PredView::Any(seq![PredView::Not(Box::new(a)), PredView::Not(Box::new(b))]),
            c,
        ),
{
    let conj = seq![a, b];
    let disj = seq![PredView::Not(Box::new(a)), PredView::Not(Box::new(b))];
    assert(conj.skip(1) =~= seq![b]);
    assert(disj.skip(1) =~= seq![PredView::Not(Box::new(b))]);
    assert(seq![b].skip(1) =~= Seq::<PredView>::empty());
    assert(seq![PredView::Not(Box::new(b))].skip(1) =~= Seq::<PredView>::empty());
    assert(eval_all(Seq::<PredView>::empty(), c) == true);
    assert(eval_any(Seq::<PredView>::empty(), c) == false);
    assert(eval_all(seq![b], c) == eval_view(b, c));
    assert(eval_all(conj, c) == (eval_view(a, c) && eval_view(b, c)));
    assert(eval_any(seq![PredView::Not(Box::new(b))], c) == eval_view(PredView::Not(Box::new(b)), c));
    assert(eval_any(disj, c) == (eval_view(PredView::Not(Box::new(a)), c) || eval_view(
        PredView::Not(Box::new(b)),
        c,
    )));
    assert(eval_view(PredView::Not(Box::new(a)), c) == !eval_view(a, c));
    assert(eval_view(PredView::Not(Box::new(b)), c) == !eval_view(b, c));
    assert(eval_view(PredView::All(conj), c) == eval_all(conj, c));
    assert(eval_view(PredView::Not(Box::new(PredView::All(conj))), c) == !eval_view(
        PredView::All(conj),
        c,
    ));
    assert(eval_view(PredView::Any(disj), c) == eval_any(disj, c));
}

} // verus!

//! Rewrite rules: a searcher for the left-hand side, an applier for the
//! right-hand side, and the check that the applier only uses variables that
//! the searcher binds.
use vstd::prelude::*;
use crate::language::Id;
use crate::laws::has_bound_name;
use crate::pattern::Var;
use vstd::string::StringExecFns;

verus! {

/// The names of the variables, in their order.
pub open spec fn var_names(vars: Seq<Var>) -> Seq<Seq<char>> {
    vars.map_values(|v: Var| v@)
}

/// The left-hand side of a rewrite: something that can search an e-graph and
/// that binds variables.
pub trait Searcher {
    /// The variables bound by this searcher.
    fn vars(&self) -> Vec<Var>;
}

/// The right-hand side of a rewrite: something that uses the variables bound
/// by the searcher. By default it claims none, which turns the check off.
pub trait Applier {
    /// The variables that this applier assumes are bound; none, unless the
    /// applier says otherwise.
    fn vars(&self) -> (res: Vec<Var>)
        default_ensures
            res@ == Seq::<Var>::empty(),
    {
        Vec::new()
    }
}

/// Every used variable has the name of some bound variable.
pub open spec fn all_bound(bound: Seq<Var>, used: Seq<Var>) -> bool {
    forall|j: int| 0 <= j < used.len() ==> var_names(bound).contains(#[trigger] used[j]@)
}

/// `i` is the position of the first used variable whose name is not the name
/// of any bound variable.
pub open spec fn is_first_unbound(bound: Seq<Var>, used: Seq<Var>, i: int) -> bool {
    &&& 0 <= i < used.len()
    &&& !var_names(bound).contains(used[i]@)
    &&& all_bound(bound, used.take(i))
}

/// Whether a variable with the name of `v` is among `vars`.
fn has_var(vars: &Vec<Var>, v: &Var) -> (b: bool)
    ensures
        b == var_names(vars@).contains(v@),
        b == has_bound_name(vars@, *v),
{
    proof {
        crate::laws::var_names_are_the_names(vars@);
    }
    for i in 0..vars.len()
        invariant
            forall|j: int| 0 <= j < i ==> vars@[j]@ != v@,
    {
        if vars[i].same(v) {
            assert(var_names(vars@)[i as int] == v@);
            return true;
        }
    }
    proof {
        if var_names(vars@).contains(v@) {
            let j = choose|j: int| 0 <= j < vars@.len() && var_names(vars@)[j] == v@;
            assert(vars@[j]@ == v@);
        }
    }
    false
}

/// The position of the first variable of `used` that is not bound, by name,
/// in `bound`; `None` when every used variable is bound.
pub fn first_unbound(bound: &Vec<Var>, used: &Vec<Var>) -> (r: Option<usize>)
    ensures
        match r {
            Some(i) => is_first_unbound(bound@, used@, i as int),
            None => all_bound(bound@, used@),
        },
        match r {
            Some(i) => {
                &&& i < used@.len()
                &&& !has_bound_name(bound@, used@[i as int])
                &&& forall|j: int| 0 <= j < i ==> has_bound_name(bound@, #[trigger] used@[j])
            },
            None => forall|j: int| 0 <= j < used@.len() ==> has_bound_name(bound@, #[trigger] used@[j]),
        },
{
    proof {
        crate::laws::var_names_are_the_names(bound@);
    }
    for i in 0..used.len()
        invariant
            all_bound(bound@, used@.take(i as int)),
            forall|j: int| 0 <= j < i ==> has_bound_name(bound@, #[trigger] used@[j]),
    {
        if !has_var(bound, &used[i]) {
            return Some(i);
        }
        assert(all_bound(bound@, used@.take(i + 1))) by {
            assert forall|j: int| 0 <= j < i + 1 implies var_names(bound@).contains(
                #[trigger] used@.take(i + 1)[j]@,
            ) by {
                if j < i {
                    assert(used@.take(i + 1)[j] == used@.take(i as int)[j]);
                }
            }
        }
    }
    assert(used@.take(used.len() as int) =~= used@);
    None
}

/// The message that refuses a rewrite named `name` for the unbound variable
/// named `var`.
pub open spec fn unbound_message(name: Seq<char>, var: Seq<char>) -> Seq<char> {
    "Rewrite "@ + name + " refers to unbound var "@ + var
}

/// The message that refuses the rewrite `name` because of the unbound `var`.
pub fn unbound_var_error(name: &str, var: &Var) -> (msg: String)
    ensures
        msg@ == unbound_message(name@, var@),
{
    let mut msg = String::from_str("Rewrite ");
    msg.append(name);
    msg.append(" refers to unbound var ");
    msg.append(var.name());
    msg
}

/// A rewrite rule: it searches for its left-hand side and applies its
/// right-hand side. It also holds a name and a long name used for display.
pub struct Rewrite<S, A> {
    name: String,
    long_name: String,
    searcher: S,
    applier: A,
}

/// What building a rewrite named `name` comes to, given the variables that
/// its searcher binds and those that its applier uses: `None` when every used
/// variable is bound, else the message naming the first one that is not.
pub open spec fn rewrite_check(name: Seq<char>, bound: Seq<Var>, used: Seq<Var>) -> Option<
    Seq<char>,
> {
    if all_bound(bound, used) {
        None
    } else {
        Some(
            unbound_message(
                name,
                used[choose|i: int| is_first_unbound(bound, used, i)]@,
            ),
        )
    }
}

impl<S: Searcher, A: Applier> Rewrite<S, A> {
    /// The name of the rewrite.
    pub closed spec fn spec_name(&self) -> Seq<char> {
        self.name@
    }

    /// The long name of the rewrite.
    pub closed spec fn spec_long_name(&self) -> Seq<char> {
        self.long_name@
    }

    /// The searcher of the rewrite.
    pub closed spec fn spec_searcher(&self) -> S {
        self.searcher
    }

    /// The applier of the rewrite.
    pub closed spec fn spec_applier(&self) -> A {
        self.applier
    }

    /// Returns the name of the rewrite.
    pub fn name(&self) -> (s: &str)
        ensures
            s@ == self.spec_name(),
    {
        self.name.as_str()
    }

    /// Returns the long name of the rewrite, used for debugging and display.
    pub fn long_name(&self) -> (s: &str)
        ensures
            s@ == self.spec_long_name(),
    {
        self.long_name.as_str()
    }

    /// Builds a rewrite from the variables that its searcher and applier
    /// reported: refused with a message when the applier uses a variable that
    /// the searcher does not bind.
    pub fn from_parts(
        name: String,
        long_name: String,
        searcher: S,
        applier: A,
        bound: &Vec<Var>,
        used: &Vec<Var>,
    ) -> (res: Result<Self, String>)
        ensures
            rewrite_outcome(res, name@, long_name@, searcher, applier, bound@, used@),
            res is Ok <==> forall|j: int|
                0 <= j < used@.len() ==> has_bound_name(bound@, #[trigger] used@[j]),
    {
        match first_unbound(bound, used) {
            Some(i) => {
                let msg = unbound_var_error(name.as_str(), &used[i]);
                proof {
                    let j = choose|j: int| is_first_unbound(bound@, used@, j);
                    if j < i {
                        assert(used@.take(i as int)[j] == used@[j]);
                    } else if i < j {
                        assert(used@.take(j)[i as int] == used@[i as int]);
                    }
                    assert(!all_bound(bound@, used@));
                }
                Err(msg)
            },
            None => Ok(Rewrite { name, long_name, searcher, applier }),
        }
    }

    /// Creates a rewrite with a name and a distinct long name, refused when
    /// the applier uses a variable that the searcher does not bind.
    pub fn old_new(name: String, long_name: String, searcher: S, applier: A) -> (res: Result<
        Self,
        String,
    >)
        ensures
            exists|bound: Vec<Var>, used: Vec<Var>|
                {
                    &&& call_ensures(S::vars, (&searcher,), bound)
                    &&& call_ensures(A::vars, (&applier,), used)
                    &&& rewrite_outcome(res, name@, long_name@, searcher, applier, bound@, used@)
                    &&& (res is Ok <==> forall|j: int|
                        0 <= j < used@.len() ==> has_bound_name(bound@, #[trigger] used@[j]))
                },
    {
        let bound = searcher.vars();
        let used = applier.vars();
        Self::from_parts(name, long_name, searcher, applier, &bound, &used)
    }

    /// Creates a rewrite whose long name is its name, refused when the applier
    /// uses a variable that the searcher does not bind.
    pub fn new(name: String, searcher: S, applier: A) -> (res: Result<Self, String>)
        ensures
            exists|bound: Vec<Var>, used: Vec<Var>|
                {
                    &&& call_ensures(S::vars, (&searcher,), bound)
                    &&& call_ensures(A::vars, (&applier,), used)
                    &&& rewrite_outcome(res, name@, name@, searcher, applier, bound@, used@)
                    &&& (res is Ok <==> forall|j: int|
                        0 <= j < used@.len() ==> has_bound_name(bound@, #[trigger] used@[j]))
                },
    {
        let long_name = name.clone();
        let bound = searcher.vars();
        let used = applier.vars();
        Self::from_parts(name, long_name, searcher, applier, &bound, &used)
    }
}

/// `res` is the outcome of building a rewrite named `name`, with long name
/// `long_name`, from `searcher` and `applier`, whose variables were reported
/// as `bound` and `used`: the rewrite holding them when every used variable is
/// bound, else the message naming the first one that is not.
pub open spec fn rewrite_outcome<S: Searcher, A: Applier>(
    res: Result<Rewrite<S, A>, String>,
    name: Seq<char>,
    long_name: Seq<char>,
    searcher: S,
    applier: A,
    bound: Seq<Var>,
    used: Seq<Var>,
) -> bool {
    match res {
        Ok(r) => {
            &&& rewrite_check(name, bound, used) is None
            &&& r.spec_name() == name
            &&& r.spec_long_name() == long_name
            &&& r.spec_searcher() == searcher
            &&& r.spec_applier() == applier
        },
        Err(msg) => rewrite_check(name, bound, used) == Some(msg@),
    }
}

impl<S: Searcher + Clone, A: Applier + Clone> Clone for Rewrite<S, A> {
    /// The same names, with clones of the searcher and the applier.
    fn clone(&self) -> (res: Self)
        ensures
            res.spec_name() == self.spec_name(),
            res.spec_long_name() == self.spec_long_name(),
            cloned(self.spec_searcher(), res.spec_searcher()),
            cloned(self.spec_applier(), res.spec_applier()),
    {
        Rewrite {
            name: self.name.clone(),
            long_name: self.long_name.clone(),
            searcher: self.searcher.clone(),
            applier: self.applier.clone(),
        }
    }
}

/// Of the outcomes of a series of unions (the class each produced, and
/// whether it changed anything), the classes of those that changed
/// something, in order.
pub open spec fn changed_classes_spec(outcomes: Seq<(Id, bool)>) -> Seq<Id>
    decreases outcomes.len(),
{
    if outcomes.len() == 0 {
        Seq::empty()
    } else {
        let before = changed_classes_spec(outcomes.drop_last());
        if outcomes.last().1 {
            before.push(outcomes.last().0)
        } else {
            before
        }
    }
}

/// The classes to report after applying a rewrite: of the outcomes of the
/// unions it made, the classes of those that changed something, in order.
pub fn changed_classes(outcomes: &Vec<(Id, bool)>) -> (res: Vec<Id>)
    ensures
        res@ == changed_classes_spec(outcomes@),
        exists|idx: Seq<int>| crate::laws::lists_changed(outcomes@, res@, idx),
{
    let mut res: Vec<Id> = Vec::new();
    for i in 0..outcomes.len()
        invariant
            res@ == changed_classes_spec(outcomes@.take(i as int)),
    {
        assert(outcomes@.take(i + 1).drop_last() =~= outcomes@.take(i as int));
        let (to, did_something) = outcomes[i];
        if did_something {
            res.push(to);
        }
    }
    assert(outcomes@.take(outcomes.len() as int) =~= outcomes@);
    proof {
        crate::laws::changed_classes_are_the_changed(outcomes@);
    }
    res
}

} // verus!

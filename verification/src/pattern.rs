//! Patterns: expressions whose nodes are either operators or variables.
use crate::language::{ids_upto, Id, Language, RecExpr};
use vstd::prelude::*;
use vstd::string::StringExecFns;

verus! {

/// A pattern variable, named with its leading `?` (such as `?x`).
pub struct Var {
    name: String,
}

impl View for Var {
    type V = Seq<char>;

    closed spec fn view(&self) -> Seq<char> {
        self.name@
    }
}

impl Var {
    /// A variable whose name is the given string.
    pub fn from_string(name: String) -> (v: Var)
        ensures
            v@ == name@,
    {
        Var { name }
    }

    /// A variable with the same name.
    pub fn duplicate(&self) -> (v: Var)
        ensures
            v@ == self@,
    {
        Var { name: self.name.clone() }
    }

    /// A variable with the given name.
    pub fn new(name: &str) -> (v: Var)
        ensures
            v@ == name@,
    {
        Var { name: String::from_str(name) }
    }

    /// The name of the variable, as it is displayed.
    pub fn name(&self) -> (s: &str)
        ensures
            s@ == self@,
    {
        self.name.as_str()
    }

    /// Whether the two variables have the same name.
    pub fn same(&self, other: &Var) -> (b: bool)
        ensures
            b == (self@ == other@),
    {
        self.name == other.name
    }
}

/// The color of a node, for colored e-graphs.
#[derive(Clone, Copy, PartialEq, Eq, Structural, Debug, Hash)]
pub struct ColorId(pub usize);

/// A node of a pattern: an operator node (with an optional color) or a
/// variable.
pub enum ENodeOrVar<L> {
    ENode(L, Option<ColorId>),
    Var(Var),
}

/// `b` is a copy of `a`: the same variable name, or a clone of the same
/// operator node with the same color.
pub open spec fn node_cloned<L: Clone>(a: ENodeOrVar<L>, b: ENodeOrVar<L>) -> bool {
    match (a, b) {
        (ENodeOrVar::ENode(n, c), ENodeOrVar::ENode(m, d)) => c == d && cloned(n, m),
        (ENodeOrVar::Var(v), ENodeOrVar::Var(w)) => v@ == w@,
        _ => false,
    }
}

/// Copies a pattern, cloning its operator nodes.
pub fn clone_pattern<L: Clone>(ast: &RecExpr<ENodeOrVar<L>>) -> (res: RecExpr<ENodeOrVar<L>>)
    ensures
        res.nodes@.len() == ast.nodes@.len(),
        forall|j: int|
            0 <= j < ast.nodes@.len() ==> node_cloned(ast.nodes@[j], #[trigger] res.nodes@[j]),
{
    let mut res: RecExpr<ENodeOrVar<L>> = RecExpr::new();
    for j in 0..ast.nodes.len()
        invariant
            res.nodes@.len() == j,
            forall|m: int|
                0 <= m < j ==> node_cloned(ast.nodes@[m], #[trigger] res.nodes@[m]),
    {
        let node = match &ast.nodes[j] {
            ENodeOrVar::ENode(n, c) => ENodeOrVar::ENode(n.clone(), *c),
            ENodeOrVar::Var(v) => ENodeOrVar::Var(v.duplicate()),
        };
        res.add(node);
    }
    res
}

/// Several patterns matched together, with special patterns attached to
/// variables.
pub struct MultiPattern<L> {
    pub patterns: Vec<(Var, RecExpr<ENodeOrVar<L>>)>,
    pub specials: Vec<(Var, Vec<RecExpr<ENodeOrVar<L>>>)>,
}

impl<L> MultiPattern<L> {
    /// A multipattern made of the given patterns and special patterns.
    pub fn new_with_specials(
        patterns: Vec<(Var, RecExpr<ENodeOrVar<L>>)>,
        specials: Vec<(Var, Vec<RecExpr<ENodeOrVar<L>>>)>,
    ) -> (res: Self)
        ensures
            res.patterns == patterns,
            res.specials == specials,
    {
        MultiPattern { patterns, specials }
    }
}

/// The decimal digits of `n`, without leading zeros.
pub open spec fn decimal(n: nat) -> Seq<char>
    decreases n,
{
    if n < 10 {
        seq![(n + 48) as char]
    } else {
        decimal(n / 10) + seq![((n % 10) + 48) as char]
    }
}

/// The name `?var_{op}_{j}`, with both numbers in decimal.
pub open spec fn detector_var_name(op: usize, j: nat) -> Seq<char> {
    "?var_"@ + decimal(op as nat) + "_"@ + decimal(j)
}

/// The text of the decimal digit `d`.
fn digit_text(d: usize) -> (s: &'static str)
    requires
        d < 10,
    ensures
        s@ == seq![(d + 48) as char],
{
    match d {
        0 => {
            proof {
                reveal_strlit("0");
            }
            "0"
        },
        1 => {
            proof {
                reveal_strlit("1");
            }
            "1"
        },
        2 => {
            proof {
                reveal_strlit("2");
            }
            "2"
        },
        3 => {
            proof {
                reveal_strlit("3");
            }
            "3"
        },
        4 => {
            proof {
                reveal_strlit("4");
            }
            "4"
        },
        5 => {
            proof {
                reveal_strlit("5");
            }
            "5"
        },
        6 => {
            proof {
                reveal_strlit("6");
            }
            "6"
        },
        7 => {
            proof {
                reveal_strlit("7");
            }
            "7"
        },
        8 => {
            proof {
                reveal_strlit("8");
            }
            "8"
        },
        _ => {
            proof {
                reveal_strlit("9");
            }
            "9"
        },
    }
}

/// Appends the decimal digits of `n` to `s`.
fn append_decimal(s: &mut String, n: usize)
    ensures
        final(s)@ == old(s)@ + decimal(n as nat),
    decreases n,
{
    if n >= 10 {
        append_decimal(s, n / 10);
    }
    s.append(digit_text(n % 10));
    proof {
        if n >= 10 {
            assert((n / 10) as nat == n as nat / 10);
        }
    }
}

/// The text `?var_{op}_{j}`, with both numbers in decimal.
fn detector_var_text(op: usize, j: usize) -> (s: String)
    ensures
        s@ == detector_var_name(op, j as nat),
{
    let mut s = String::from_str("?var_");
    append_decimal(&mut s, op);
    s.append("_");
    append_decimal(&mut s, j);
    s
}

/// `n` is `op` with its children numbered in order.
pub open spec fn is_numbered<L: Language>(n: L, op: L) -> bool {
    &&& n.spec_children() == ids_upto(op.spec_children().len())
    &&& op.spec_same_but_children(&n)
}

/// Node `j` of the vacuity pattern of `op`: a fresh variable for each child,
/// then `op` with its children numbered in order, uncolored; when `copy`
/// holds, a clone of that node stands in its place.
pub open spec fn detector_node_ok<L: Language>(
    node: ENodeOrVar<L>,
    op: L,
    j: int,
    copy: bool,
) -> bool {
    let k = op.spec_children().len();
    if j < k {
        match node {
            ENodeOrVar::Var(v) => v@ == detector_var_name(op.spec_op_id(), j as nat),
            _ => false,
        }
    } else {
        match node {
            ENodeOrVar::ENode(n, c) => c is None && if copy {
                exists|m: L| is_numbered(m, op) && cloned(m, n)
            } else {
                is_numbered(n, op)
            },
            _ => false,
        }
    }
}

/// `ast` is the vacuity pattern of `op`, or a copy of it when `copy` holds.
pub open spec fn is_detector_pattern<L: Language>(ast: Seq<ENodeOrVar<L>>, op: L, copy: bool) -> bool {
    &&& ast.len() == op.spec_children().len() + 1
    &&& forall|j: int| 0 <= j < ast.len() ==> detector_node_ok(#[trigger] ast[j], op, j, copy)
}

/// A copy of a vacuity pattern is a vacuity pattern up to clones.
pub proof fn lemma_copy_detector_pattern<L: Language>(
    ast: Seq<ENodeOrVar<L>>,
    copy: Seq<ENodeOrVar<L>>,
    op: L,
)
    requires
        is_detector_pattern(ast, op, false),
        copy.len() == ast.len(),
        forall|j: int| 0 <= j < ast.len() ==> node_cloned(ast[j], #[trigger] copy[j]),
    ensures
        is_detector_pattern(copy, op, true),
{
    assert forall|j: int| 0 <= j < copy.len() implies detector_node_ok(#[trigger] copy[j], op, j, true) by {
        assert(node_cloned(ast[j], copy[j]));
        assert(detector_node_ok(ast[j], op, j, false));
        if let ENodeOrVar::ENode(n, _) = ast[j] {
            if j >= op.spec_children().len() {
                assert(is_numbered(n, op));
            }
        }
    }
}

/// The pattern that matches any use of the operator of `op`: a variable for
/// each child, then `op` with its children pointing to those variables.
pub fn detector_pattern<L: Language>(op: L) -> (res: RecExpr<ENodeOrVar<L>>)
    ensures
        is_detector_pattern(res.nodes@, op, false),
        res.nodes@.len() == op.spec_children().len() + 1,
        forall|j: int|
            0 <= j < op.spec_children().len() ==> match #[trigger] res.nodes@[j] {
                ENodeOrVar::Var(v) => v@ == "?var_"@ + decimal(op.spec_op_id() as nat) + "_"@
                    + decimal(j as nat),
                _ => false,
            },
        match res.nodes@[op.spec_children().len() as int] {
            ENodeOrVar::ENode(n, c) => {
                &&& c is None
                &&& n.spec_children().len() == op.spec_children().len()
                &&& forall|j: int|
                    0 <= j < op.spec_children().len() ==> #[trigger] n.spec_children()[j] == Id(
                        j as usize,
                    )
                &&& op.spec_same_but_children(&n)
            },
            _ => false,
        },
{
    let mut o = op;
    let k = o.children().len();
    let id = o.op_id();
    let mut rec_expr: RecExpr<ENodeOrVar<L>> = RecExpr::new();
    for j in 0..k
        invariant
            k == op.spec_children().len(),
            id == op.spec_op_id(),
            rec_expr.nodes@.len() == j,
            forall|m: int| 0 <= m < j ==> detector_node_ok(#[trigger] rec_expr.nodes@[m], op, m, false),
    {
        let name = detector_var_text(id, j);
        rec_expr.add(ENodeOrVar::Var(Var::from_string(name)));
    }
    number_children(&mut o);
    rec_expr.add(ENodeOrVar::ENode(o, None));
    assert(detector_node_ok(rec_expr.nodes@[k as int], op, k as int, false));
    assert forall|j: int| 0 <= j < k implies match #[trigger] rec_expr.nodes@[j] {
        ENodeOrVar::Var(v) => v@ == "?var_"@ + decimal(op.spec_op_id() as nat) + "_"@ + decimal(
            j as nat,
        ),
        _ => false,
    } by {
        assert(detector_node_ok(rec_expr.nodes@[j], op, j, false));
    }
    rec_expr
}

/// Numbers the children of the node in order.
fn number_children<L: Language>(o: &mut L)
    ensures
        is_numbered(*final(o), *old(o)),
{
    crate::language::number_ids(o.children_mut());
}

} // verus!

use egg::pattern::Var;
use egg::language::Id;
use egg::rewrite::{changed_classes, first_unbound, unbound_var_error, Applier, Rewrite, Searcher};

#[derive(Clone)]
struct Lhs(Vec<&'static str>);
#[derive(Clone)]
struct Rhs(Vec<&'static str>);
struct Silent;

impl Searcher for Lhs {
    fn vars(&self) -> Vec<Var> {
        self.0.iter().map(|n| Var::new(n)).collect()
    }
}

impl Applier for Rhs {
    fn vars(&self) -> Vec<Var> {
        self.0.iter().map(|n| Var::new(n)).collect()
    }
}

impl Applier for Silent {}

#[test]
fn rewrite_with_bound_vars() {
    let r = Rewrite::new("commute-add".to_string(), Lhs(vec!["?a", "?b"]), Rhs(vec!["?b", "?a"]))
        .unwrap();
    assert_eq!(r.name(), "commute-add");
    assert_eq!(r.long_name(), "commute-add");
}

#[test]
fn rewrite_with_unbound_var() {
    let r = Rewrite::new("bad".to_string(), Lhs(vec!["?a"]), Rhs(vec!["?a", "?c", "?d"]));
    match r {
        Ok(_) => panic!("an unbound variable must be refused"),
        Err(msg) => assert_eq!(msg, "Rewrite bad refers to unbound var ?c"),
    }
}

#[test]
fn rewrite_old_new_keeps_long_name() {
    let r = Rewrite::old_new(
        "mul-0".to_string(),
        "(* ?a 0) => 0".to_string(),
        Lhs(vec!["?a"]),
        Rhs(vec![]),
    )
    .unwrap();
    assert_eq!(r.name(), "mul-0");
    assert_eq!(r.long_name(), "(* ?a 0) => 0");
}

#[test]
fn rewrite_old_new_refuses() {
    let r = Rewrite::old_new("r".to_string(), "long".to_string(), Lhs(vec![]), Rhs(vec!["?x"]));
    assert_eq!(r.err().unwrap(), "Rewrite r refers to unbound var ?x");
}

#[test]
fn default_applier_uses_no_var() {
    let r = Rewrite::new("any".to_string(), Lhs(vec![]), Silent).unwrap();
    assert_eq!(r.name(), "any");
}

#[test]
fn first_unbound_positions() {
    let bound = vec![Var::new("?a"), Var::new("?b")];
    let used = vec![Var::new("?b"), Var::new("?z"), Var::new("?y")];
    assert_eq!(first_unbound(&bound, &used), Some(1));
    let used2 = vec![Var::new("?a"), Var::new("?a")];
    assert_eq!(first_unbound(&bound, &used2), None);
    assert_eq!(first_unbound(&vec![], &vec![]), None);
}

#[test]
fn unbound_message_text() {
    assert_eq!(
        unbound_var_error("fold", &Var::new("?q")),
        "Rewrite fold refers to unbound var ?q"
    );
}

#[test]
fn var_names_compare() {
    let a = Var::new("?a");
    assert_eq!(a.name(), "?a");
    assert!(a.same(&Var::new("?a")));
    assert!(!a.same(&Var::new("?b")));
}

#[test]
fn rewrite_clone_keeps_names() {
    let r = Rewrite::old_new("a".to_string(), "long a".to_string(), Lhs(vec!["?x"]), Rhs(vec!["?x"]))
        .unwrap();
    let c = r.clone();
    assert_eq!(c.name(), "a");
    assert_eq!(c.long_name(), "long a");
}

#[test]
fn changed_classes_keeps_unions_that_did_something() {
    let outcomes = vec![(Id(3), true), (Id(4), false), (Id(1), true), (Id(9), false)];
    assert_eq!(changed_classes(&outcomes), vec![Id(3), Id(1)]);
    assert!(changed_classes(&vec![]).is_empty());
}

#[test]
fn new_agrees_with_old_new_on_name() {
    let a = Rewrite::new("r".to_string(), Lhs(vec!["?a"]), Rhs(vec!["?a"])).unwrap();
    let b = Rewrite::old_new("r".to_string(), "r".to_string(), Lhs(vec!["?a"]), Rhs(vec!["?a"]))
        .unwrap();
    assert_eq!(a.name(), b.name());
    assert_eq!(a.long_name(), b.long_name());
    let e1 = Rewrite::new("r".to_string(), Lhs(vec![]), Rhs(vec!["?q"])).err().unwrap();
    let e2 = Rewrite::old_new("r".to_string(), "r".to_string(), Lhs(vec![]), Rhs(vec!["?q"]))
        .err()
        .unwrap();
    assert_eq!(e1, e2);
}

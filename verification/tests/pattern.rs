use egg::language::{Id, RecExpr, SimpleNode};
use egg::pattern::{clone_pattern, detector_pattern, ENodeOrVar, Var};
use egg::tools::vacuity_detector_from_ops;

fn describe(ast: &RecExpr<ENodeOrVar<SimpleNode>>) -> Vec<String> {
    ast.nodes
        .iter()
        .map(|n| match n {
            ENodeOrVar::Var(v) => v.name().to_string(),
            ENodeOrVar::ENode(o, c) => {
                let kids: Vec<String> = o.children.iter().map(|k| k.0.to_string()).collect();
                format!("op{}({}){}", o.op, kids.join(","), if c.is_some() { "c" } else { "" })
            }
        })
        .collect()
}

#[test]
fn detector_pattern_numbers_children() {
    let op = SimpleNode { op: 3, children: vec![Id(7), Id(9)] };
    let p = detector_pattern(op);
    assert_eq!(describe(&p), vec!["?var_3_0", "?var_3_1", "op3(0,1)"]);
}

#[test]
fn detector_pattern_of_leaf() {
    let p = detector_pattern(SimpleNode { op: 120, children: vec![] });
    assert_eq!(describe(&p), vec!["op120()"]);
}

#[test]
fn vacuity_detectors_pair_each_op_with_the_others() {
    let ops = vec![
        SimpleNode { op: 3, children: vec![Id(7), Id(9)] },
        SimpleNode { op: 12, children: vec![] },
        SimpleNode { op: 5, children: vec![Id(1)] },
    ];
    let res = vacuity_detector_from_ops(ops);
    assert_eq!(res.len(), 3);
    let expected = [
        vec!["?var_3_0", "?var_3_1", "op3(0,1)"],
        vec!["op12()"],
        vec!["?var_5_0", "op5(0)"],
    ];
    for (i, mp) in res.iter().enumerate() {
        assert_eq!(mp.patterns.len(), 1);
        assert_eq!(mp.patterns[0].0.name(), "?multipattern_var");
        assert_eq!(describe(&mp.patterns[0].1), expected[i]);
        assert_eq!(mp.specials.len(), 1);
        assert_eq!(mp.specials[0].0.name(), "?multipattern_var");
        let others: Vec<Vec<String>> = mp.specials[0].1.iter().map(describe).collect();
        let want: Vec<Vec<&str>> = (0..3).filter(|j| *j != i).map(|j| expected[j].clone()).collect();
        assert_eq!(others, want);
    }
}

#[test]
fn vacuity_detectors_of_no_ops() {
    let res = vacuity_detector_from_ops(Vec::<SimpleNode>::new());
    assert!(res.is_empty());
}

#[test]
fn clone_pattern_copies_nodes() {
    let mut ast: RecExpr<ENodeOrVar<SimpleNode>> = RecExpr::new();
    let first = ast.add(ENodeOrVar::Var(Var::new("?x")));
    assert_eq!(first, Id(0));
    let second = ast.add(ENodeOrVar::ENode(SimpleNode { op: 1, children: vec![Id(0)] }, None));
    assert_eq!(second, Id(1));
    let copy = clone_pattern(&ast);
    assert_eq!(describe(&copy), vec!["?x", "op1(0)"]);
}

#[test]
fn vacuity_detector_of_single_leaf() {
    let leaf = SimpleNode { op: 4, children: vec![] };
    let res = vacuity_detector_from_ops(vec![leaf.clone()]);
    assert_eq!(res.len(), 1);
    assert_eq!(res[0].patterns.len(), 1);
    assert_eq!(res[0].patterns[0].0.name(), "?multipattern_var");
    let nodes = &res[0].patterns[0].1.nodes;
    assert_eq!(nodes.len(), 1);
    match &nodes[0] {
        ENodeOrVar::ENode(n, c) => {
            assert_eq!(*n, leaf);
            assert!(c.is_none());
        }
        ENodeOrVar::Var(_) => panic!("expected the leaf node"),
    }
    assert_eq!(res[0].specials.len(), 1);
    assert_eq!(res[0].specials[0].0.name(), "?multipattern_var");
    assert!(res[0].specials[0].1.is_empty());
}

#[test]
fn simple_node_clone_keeps_fields() {
    let n = SimpleNode { op: 9, children: vec![Id(2), Id(5)] };
    assert_eq!(n.clone(), n);
}

#[test]
fn detector_var_names_use_decimal() {
    let p = detector_pattern(SimpleNode { op: 1234, children: vec![Id(0); 11] });
    let names = describe(&p);
    assert_eq!(names[0], "?var_1234_0");
    assert_eq!(names[10], "?var_1234_10");
    assert_eq!(names[11], "op1234(0,1,2,3,4,5,6,7,8,9,10)");
}

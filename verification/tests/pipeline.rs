use category_netlist::ast::{CategoryAST, Statement};
use category_netlist::dag::{CategoryDAG, DAGNode};
use category_netlist::netlist::{Netlist, VerilogModule};

fn obj(name: &str) -> Statement {
    Statement::Object(name.to_string())
}

fn mor(name: &str, from: &str, to: &str) -> Statement {
    Statement::Morphism {
        name: name.to_string(),
        from: from.to_string(),
        to: to.to_string(),
    }
}

fn ast_of(statements: Vec<Statement>) -> CategoryAST {
    CategoryAST { statements }
}

#[test]
fn graph_counts_nodes_and_edges() {
    // N = 3 objects, M = 2 morphisms: N + M nodes, 2 * M edges.
    let ast = ast_of(vec![
        obj("A"),
        obj("B"),
        obj("C"),
        mor("f", "A", "B"),
        mor("g", "B", "C"),
    ]);
    let dag = CategoryDAG::from_ast(&ast).expect("well-formed input");
    assert_eq!(dag.nodes.len(), 5);
    assert_eq!(dag.edges.len(), 4);
    for (_, _, e) in &dag.edges {
        assert_eq!(e.width, 8);
    }
}

#[test]
fn forward_references_resolve() {
    // Morphisms may reference objects declared later in the sequence.
    let ast = ast_of(vec![mor("f", "A", "B"), obj("A"), obj("B")]);
    let dag = CategoryDAG::from_ast(&ast).expect("forward references are fine");
    assert_eq!(dag.nodes.len(), 3);
    assert_eq!(dag.edges.len(), 2);
}

#[test]
fn unresolved_reference_is_fatal() {
    let ast = ast_of(vec![obj("A"), mor("f", "A", "B")]);
    match CategoryDAG::from_ast(&ast) {
        Err(e) => assert_eq!(e, "Object B not found"),
        Ok(_) => panic!("expected a reference error"),
    }
}

#[test]
fn unresolved_source_reported_before_target() {
    let ast = ast_of(vec![mor("f", "A", "B")]);
    match CategoryDAG::from_ast(&ast) {
        Err(e) => assert_eq!(e, "Object A not found"),
        Ok(_) => panic!("expected a reference error"),
    }
}

#[test]
fn minimal_chain_schedules_in_declaration_order() {
    let ast = ast_of(vec![obj("A"), obj("B"), mor("f", "A", "B")]);
    let dag = CategoryDAG::from_ast(&ast).expect("well-formed input");
    assert_eq!(dag.nodes.len(), 3);
    assert_eq!(dag.edges.len(), 2);
    // edges A -> f and f -> B, by arena index
    assert_eq!((dag.edges[0].0, dag.edges[0].1), (0, 2));
    assert_eq!((dag.edges[1].0, dag.edges[1].1), (2, 1));
    // order [A, f, B]
    let order = dag.get_execution_order().expect("acyclic");
    assert_eq!(order, vec![0, 2, 1]);
}

#[test]
fn topological_order_respects_edges() {
    let ast = ast_of(vec![
        obj("A"),
        obj("B"),
        obj("C"),
        mor("g", "B", "C"),
        mor("f", "A", "B"),
    ]);
    let dag = CategoryDAG::from_ast(&ast).expect("well-formed input");
    let order = dag.get_execution_order().expect("acyclic");
    assert_eq!(order.len(), dag.nodes.len());
    let pos = |v: usize| order.iter().position(|&u| u == v).expect("every node scheduled");
    for (s, t, _) in &dag.edges {
        assert!(pos(*s) < pos(*t));
    }
}

#[test]
fn cyclic_graph_is_rejected() {
    // f: A -> B and g: B -> A close a directed cycle through both
    // objects; the graph itself is left intact.
    let ast = ast_of(vec![obj("A"), obj("B"), mor("f", "A", "B"), mor("g", "B", "A")]);
    let dag = CategoryDAG::from_ast(&ast).expect("names all resolve");
    match dag.get_execution_order() {
        Err(e) => assert_eq!(e, "Cycle detected in DAG"),
        Ok(order) => panic!("cyclic graph must not schedule, got {:?}", order),
    }
    // no mutation on failure
    assert_eq!(dag.nodes.len(), 4);
    assert_eq!(dag.edges.len(), 4);
}

#[test]
fn name_collision_overwrites_earlier_registration() {
    // object X first, morphism X later: the shared name index keeps the
    // later registration, so edges for morphism X use the morphism node.
    let ast = ast_of(vec![obj("A"), obj("B"), obj("X"), mor("X", "A", "B")]);
    let dag = CategoryDAG::from_ast(&ast).expect("names all resolve");
    assert_eq!(dag.nodes.len(), 4);
    match &dag.nodes[3] {
        DAGNode::Morphism { name, .. } => assert_eq!(name, "X"),
        other => panic!("expected the morphism node, got {:?}", other),
    }
    // both edges attach to node 3 (the morphism), not node 2 (the object)
    assert_eq!((dag.edges[0].0, dag.edges[0].1), (0, 3));
    assert_eq!((dag.edges[1].0, dag.edges[1].1), (3, 1));
}

#[test]
fn commutativity_check_accepts_incompatible_paths() {
    // Existence-only scope: g ∘ f == h passes even though the domains
    // and codomains of the two paths cannot match.
    let ast = ast_of(vec![
        obj("A"),
        obj("B"),
        obj("C"),
        mor("f", "A", "B"),
        mor("g", "B", "C"),
        mor("h", "A", "A"),
        Statement::AssertCommute {
            lhs: vec!["g".to_string(), "f".to_string()],
            rhs: vec!["h".to_string()],
        },
    ]);
    let dag = CategoryDAG::from_ast(&ast).expect("names all resolve");
    assert!(dag.validate_commutativity(&ast).is_ok());
    let pairs = ast.get_commute_assertions();
    assert_eq!(pairs.len(), 1);
    assert_eq!(pairs[0].0, vec!["g".to_string(), "f".to_string()]);
    assert_eq!(pairs[0].1, vec!["h".to_string()]);
}

#[test]
fn module_count_is_morphisms_plus_one() {
    // M = 2 morphisms and any number of objects: M modules plus top.
    let ast = ast_of(vec![
        obj("A"),
        obj("B"),
        obj("C"),
        obj("D"),
        mor("f", "A", "B"),
        mor("g", "C", "D"),
    ]);
    let dag = CategoryDAG::from_ast(&ast).expect("well-formed input");
    let netlist = Netlist::from_dag(&dag, &ast).expect("acyclic");
    assert_eq!(netlist.modules.len(), 2);
    assert_eq!(netlist.modules.len() + 1, 3);
}

#[test]
fn minimal_chain_netlist_contents() {
    let ast = ast_of(vec![obj("A"), obj("B"), mor("f", "A", "B")]);
    let dag = CategoryDAG::from_ast(&ast).expect("well-formed input");
    let netlist = Netlist::from_dag(&dag, &ast).expect("acyclic");
    assert_eq!(netlist.modules.len(), 1);
    let m = &netlist.modules[0];
    assert_eq!(m.name, "morphism_f");
    assert_eq!(m.inputs, vec![("in_A".to_string(), 8)]);
    assert_eq!(m.outputs, vec![("out_B".to_string(), 8)]);
    assert!(m.wires.is_empty());
    assert_eq!(
        m.assignments,
        vec!["assign out_B = in_A + 1; // Placeholder logic".to_string()]
    );
    let top = &netlist.top_module;
    assert_eq!(top.name, "top");
    assert_eq!(
        top.inputs,
        vec![("in_A".to_string(), 8), ("in_B".to_string(), 8)]
    );
    assert_eq!(
        top.outputs,
        vec![("out_A".to_string(), 8), ("out_B".to_string(), 8)]
    );
    assert!(top.wires.is_empty());
    assert!(top.assignments.is_empty());
}

#[test]
fn minimal_chain_verilog_text() {
    let ast = ast_of(vec![obj("A"), obj("B"), mor("f", "A", "B")]);
    let dag = CategoryDAG::from_ast(&ast).expect("well-formed input");
    let netlist = Netlist::from_dag(&dag, &ast).expect("acyclic");
    let text = netlist.to_verilog();
    let expected = "module morphism_f (\n\
                    \x20   input [7:0] in_A,\n\
                    \x20   output [7:0] out_B\n\
                    );\n\n\
                    \x20   assign out_B = in_A + 1; // Placeholder logic\n\
                    endmodule\n\
                    \n\n\
                    module top (\n\
                    \x20   input [7:0] in_A,\n\
                    \x20   input [7:0] in_B,\n\
                    \x20   output [7:0] out_A,\n\
                    \x20   output [7:0] out_B\n\
                    );\n\n\
                    endmodule\n";
    assert_eq!(text, expected);
}

#[test]
fn cycle_propagates_through_generation() {
    let ast = ast_of(vec![obj("A"), obj("B"), mor("f", "A", "B"), mor("g", "B", "A")]);
    let dag = CategoryDAG::from_ast(&ast).expect("names all resolve");
    match Netlist::from_dag(&dag, &ast) {
        Err(e) => assert_eq!(e, "Cycle detected in DAG"),
        Ok(_) => panic!("expected the cycle error"),
    }
}

#[test]
fn wider_ports_render_their_bit_range() {
    let netlist = Netlist::new();
    let m = VerilogModule {
        name: "widths".to_string(),
        inputs: vec![("a".to_string(), 16), ("b".to_string(), 1)],
        outputs: vec![("c".to_string(), 123)],
        wires: vec![("w".to_string(), 10)],
        assignments: vec!["assign c = a;".to_string()],
    };
    let text = netlist.module_to_verilog(&m);
    let expected = "module widths (\n\
                    \x20   input [15:0] a,\n\
                    \x20   input [0:0] b,\n\
                    \x20   output [122:0] c\n\
                    );\n\n\
                    \x20   wire [9:0] w;\n\n\
                    \x20   assign c = a;\n\
                    endmodule\n";
    assert_eq!(text, expected);
}

#[test]
fn empty_ast_yields_only_top_module() {
    let ast = CategoryAST::new();
    assert!(ast.get_objects().is_empty());
    assert!(ast.get_morphisms().is_empty());
    assert!(ast.get_commute_assertions().is_empty());
    let dag = CategoryDAG::from_ast(&ast).expect("nothing to resolve");
    assert!(dag.nodes.is_empty());
    assert!(dag.edges.is_empty());
    let order = dag.get_execution_order().expect("empty graph is acyclic");
    assert!(order.is_empty());
    let netlist = Netlist::from_dag(&dag, &ast).expect("empty graph schedules");
    assert!(netlist.modules.is_empty());
    assert_eq!(netlist.to_verilog(), "module top (\n);\n\nendmodule\n");
}

#[test]
fn getters_filter_by_statement_shape() {
    let ast = ast_of(vec![
        obj("A"),
        mor("f", "A", "A"),
        Statement::AssertCommute {
            lhs: vec!["f".to_string()],
            rhs: vec!["f".to_string()],
        },
        obj("B"),
    ]);
    assert_eq!(ast.get_objects(), vec!["A".to_string(), "B".to_string()]);
    assert_eq!(
        ast.get_morphisms(),
        vec![("f".to_string(), "A".to_string(), "A".to_string())]
    );
    assert_eq!(ast.get_commute_assertions().len(), 1);
}

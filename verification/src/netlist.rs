//! Netlist generation: one module per scheduled morphism node plus one
//! top-level port-shell module, and deterministic serialization of the
//! whole netlist to Verilog text.

use vstd::prelude::*;
use vstd::string::*;
use crate::ast::{CategoryAST, object_names};
use crate::dag::{
    CategoryDAG, DAGNode, blocked_set, is_topo_order, morph_node_count, scheduled_morphisms,
};

verus! {

/// Verilog module representation.
#[derive(Debug, Clone)]
pub struct VerilogModule {
    pub name: String,
    /// (name, width) pairs
    pub inputs: Vec<(String, usize)>,
    pub outputs: Vec<(String, usize)>,
    pub wires: Vec<(String, usize)>,
    pub assignments: Vec<String>,
}

/// Netlist representation.
pub struct Netlist {
    pub modules: Vec<VerilogModule>,
    pub top_module: VerilogModule,
}

/// The decimal digit characters.
pub open spec fn digit_char(d: int) -> char {
    if d == 0 {
        '0'
    } else if d == 1 {
        '1'
    } else if d == 2 {
        '2'
    } else if d == 3 {
        '3'
    } else if d == 4 {
        '4'
    } else if d == 5 {
        '5'
    } else if d == 6 {
        '6'
    } else if d == 7 {
        '7'
    } else if d == 8 {
        '8'
    } else {
        '9'
    }
}

/// The decimal rendering of a nonnegative number, most significant
/// digit first.
pub open spec fn dec_digits(n: int) -> Seq<char>
    decreases n,
{
    if n < 10 {
        seq![digit_char(n)]
    } else {
        dec_digits(n / 10) + seq![digit_char(n % 10)]
    }
}

/// One rendered port declaration line.
pub open spec fn port_line(p: (String, usize), comma: bool, kind: Seq<char>) -> Seq<char> {
    "    "@ + kind + " ["@ + dec_digits(p.1 as int - 1) + ":0] "@ + p.0@ + (if comma {
        ","@
    } else {
        Seq::<char>::empty()
    }) + "\n"@
}

/// The rendered declarations of the first `k` ports; every line but the
/// last carries a trailing comma, the last one too when `extra` says
/// more ports follow.
pub open spec fn render_ports(ports: Seq<(String, usize)>, k: int, kind: Seq<char>, extra: bool) -> Seq<char>
    decreases k,
{
    if k <= 0 {
        Seq::empty()
    } else {
        render_ports(ports, k - 1, kind, extra) + port_line(
            ports[k - 1],
            k - 1 < ports.len() - 1 || extra,
            kind,
        )
    }
}

/// One rendered wire declaration line.
pub open spec fn wire_line(w: (String, usize)) -> Seq<char> {
    "    wire ["@ + dec_digits(w.1 as int - 1) + ":0] "@ + w.0@ + ";\n"@
}

/// The rendered declarations of the first `k` wires.
pub open spec fn render_wires(wires: Seq<(String, usize)>, k: int) -> Seq<char>
    decreases k,
{
    if k <= 0 {
        Seq::empty()
    } else {
        render_wires(wires, k - 1) + wire_line(wires[k - 1])
    }
}

/// The first `k` assignment statements, each on an indented line.
pub open spec fn render_assigns(assigns: Seq<String>, k: int) -> Seq<char>
    decreases k,
{
    if k <= 0 {
        Seq::empty()
    } else {
        render_assigns(assigns, k - 1) + "    "@ + assigns[k - 1]@ + "\n"@
    }
}

/// The rendered text of one module: header with inputs then outputs,
/// wire declarations, assignments in list order, closing keyword.
pub open spec fn render_module(m: VerilogModule) -> Seq<char> {
    "module "@ + m.name@ + " (\n"@ + render_ports(
        m.inputs@,
        m.inputs@.len() as int,
        "input"@,
        m.outputs@.len() > 0,
    ) + render_ports(m.outputs@, m.outputs@.len() as int, "output"@, false) + ");\n\n"@
        + render_wires(m.wires@, m.wires@.len() as int) + (if m.wires@.len() > 0 {
        "\n"@
    } else {
        Seq::<char>::empty()
    }) + render_assigns(m.assignments@, m.assignments@.len() as int) + "endmodule\n"@
}

/// The first `k` per-morphism modules, each followed by a blank line.
pub open spec fn render_modules(mods: Seq<VerilogModule>, k: int) -> Seq<char>
    decreases k,
{
    if k <= 0 {
        Seq::empty()
    } else {
        render_modules(mods, k - 1) + render_module(mods[k - 1]) + "\n\n"@
    }
}

/// The rendered text of the whole netlist: the per-morphism modules in
/// scheduled order, the top module last.
pub open spec fn render_netlist(nl: Netlist) -> Seq<char> {
    render_modules(nl.modules@, nl.modules@.len() as int) + render_module(nl.top_module)
}

/// Every port and wire width is at least one bit, so each bit range has
/// a nonnegative upper index.
pub open spec fn module_widths_ok(m: VerilogModule) -> bool {
    &&& forall|i: int| 0 <= i < m.inputs@.len() ==> (#[trigger] m.inputs@[i]).1 >= 1
    &&& forall|i: int| 0 <= i < m.outputs@.len() ==> (#[trigger] m.outputs@[i]).1 >= 1
    &&& forall|i: int| 0 <= i < m.wires@.len() ==> (#[trigger] m.wires@[i]).1 >= 1
}

/// The module generated for a morphism `name: from -> to`: one 8-bit
/// input from the source object, one 8-bit output to the target object,
/// and the placeholder increment assignment.
pub open spec fn is_morphism_module(
    m: VerilogModule,
    name: Seq<char>,
    from: Seq<char>,
    to: Seq<char>,
) -> bool {
    &&& m.name@ == "morphism_"@ + name
    &&& m.inputs@.len() == 1
    &&& m.inputs@[0].0@ == "in_"@ + from
    &&& m.inputs@[0].1 == 8
    &&& m.outputs@.len() == 1
    &&& m.outputs@[0].0@ == "out_"@ + to
    &&& m.outputs@[0].1 == 8
    &&& m.wires@.len() == 0
    &&& m.assignments@.len() == 1
    &&& m.assignments@[0]@ == "assign out_"@ + to + " = in_"@ + from
        + " + 1; // Placeholder logic"@
}

/// The top-level module: an 8-bit input and an 8-bit output port pair
/// for every declared object, in declaration order, and nothing else —
/// a port shell without internal wiring, a preserved known limitation.
pub open spec fn is_top_module(m: VerilogModule, objs: Seq<Seq<char>>) -> bool {
    &&& m.name@ == "top"@
    &&& m.inputs@.len() == objs.len()
    &&& forall|i: int|
        0 <= i < objs.len() ==> (#[trigger] m.inputs@[i]).0@ == "in_"@ + objs[i]
            && m.inputs@[i].1 == 8
    &&& m.outputs@.len() == objs.len()
    &&& forall|i: int|
        0 <= i < objs.len() ==> (#[trigger] m.outputs@[i]).0@ == "out_"@ + objs[i]
            && m.outputs@[i].1 == 8
    &&& m.wires@.len() == 0
    &&& m.assignments@.len() == 0
}

/// One exec decimal digit.
fn digit_str(d: usize) -> (r: &'static str)
    requires
        d < 10,
    ensures
        r@ == seq![digit_char(d as int)],
{
    if d == 0 {
        proof {
            reveal_strlit("0");
            assert("0"@ =~= seq![digit_char(0int)]);
        }
        "0"
    } else if d == 1 {
        proof {
            reveal_strlit("1");
            assert("1"@ =~= seq![digit_char(1int)]);
        }
        "1"
    } else if d == 2 {
        proof {
            reveal_strlit("2");
            assert("2"@ =~= seq![digit_char(2int)]);
        }
        "2"
    } else if d == 3 {
        proof {
            reveal_strlit("3");
            assert("3"@ =~= seq![digit_char(3int)]);
        }
        "3"
    } else if d == 4 {
        proof {
            reveal_strlit("4");
            assert("4"@ =~= seq![digit_char(4int)]);
        }
        "4"
    } else if d == 5 {
        proof {
            reveal_strlit("5");
            assert("5"@ =~= seq![digit_char(5int)]);
        }
        "5"
    } else if d == 6 {
        proof {
            reveal_strlit("6");
            assert("6"@ =~= seq![digit_char(6int)]);
        }
        "6"
    } else if d == 7 {
        proof {
            reveal_strlit("7");
            assert("7"@ =~= seq![digit_char(7int)]);
        }
        "7"
    } else if d == 8 {
        proof {
            reveal_strlit("8");
            assert("8"@ =~= seq![digit_char(8int)]);
        }
        "8"
    } else {
        proof {
            reveal_strlit("9");
            assert("9"@ =~= seq![digit_char(9int)]);
        }
        "9"
    }
}

/// Render a number in decimal.
fn usize_to_dec(n: usize) -> (s: String)
    ensures
        s@ == dec_digits(n as int),
    decreases n,
{
    if n < 10 {
        String::from_str(digit_str(n))
    } else {
        let mut s = usize_to_dec(n / 10);
        s.append(digit_str(n % 10));
        assert(s@ =~= dec_digits(n as int));
        s
    }
}

/// Append the port declaration lines for every port in the list.
fn append_ports(out: &mut String, ports: &Vec<(String, usize)>, kind: &str, extra: bool)
    requires
        forall|i: int| 0 <= i < ports@.len() ==> (#[trigger] ports@[i]).1 >= 1,
    ensures
        final(out)@ == old(out)@ + render_ports(ports@, ports@.len() as int, kind@, extra),
{
    let ghost base = out@;
    let mut i: usize = 0;
    assert(out@ =~= base + render_ports(ports@, 0, kind@, extra));
    while i < ports.len()
        invariant
            forall|j: int| 0 <= j < ports@.len() ==> (#[trigger] ports@[j]).1 >= 1,
            i <= ports@.len(),
            out@ == base + render_ports(ports@, i as int, kind@, extra),
        decreases ports@.len() - i,
    {
        let ghost pre = out@;
        out.append("    ");
        out.append(kind);
        out.append(" [");
        let d = usize_to_dec(ports[i].1 - 1);
        out.append(d.as_str());
        out.append(":0] ");
        out.append(ports[i].0.as_str());
        let comma = i + 1 < ports.len() || extra;
        if comma {
            out.append(",");
        }
        out.append("\n");
        proof {
            assert(out@ =~= pre + port_line(
                ports@[i as int],
                (i as int) < ports@.len() - 1 || extra,
                kind@,
            ));
            assert(out@ =~= base + render_ports(ports@, i as int + 1, kind@, extra));
        }
        i = i + 1;
    }
}

/// Append the wire declaration lines for every wire in the list.
fn append_wires(out: &mut String, wires: &Vec<(String, usize)>)
    requires
        forall|i: int| 0 <= i < wires@.len() ==> (#[trigger] wires@[i]).1 >= 1,
    ensures
        final(out)@ == old(out)@ + render_wires(wires@, wires@.len() as int),
{
    let ghost base = out@;
    let mut i: usize = 0;
    assert(out@ =~= base + render_wires(wires@, 0));
    while i < wires.len()
        invariant
            forall|j: int| 0 <= j < wires@.len() ==> (#[trigger] wires@[j]).1 >= 1,
            i <= wires@.len(),
            out@ == base + render_wires(wires@, i as int),
        decreases wires@.len() - i,
    {
        let ghost pre = out@;
        out.append("    wire [");
        let d = usize_to_dec(wires[i].1 - 1);
        out.append(d.as_str());
        out.append(":0] ");
        out.append(wires[i].0.as_str());
        out.append(";\n");
        proof {
            assert(out@ =~= pre + wire_line(wires@[i as int]));
            assert(out@ =~= base + render_wires(wires@, i as int + 1));
        }
        i = i + 1;
    }
}

/// Append every assignment statement on its own indented line.
fn append_assigns(out: &mut String, assigns: &Vec<String>)
    ensures
        final(out)@ == old(out)@ + render_assigns(assigns@, assigns@.len() as int),
{
    let ghost base = out@;
    let mut i: usize = 0;
    assert(out@ =~= base + render_assigns(assigns@, 0));
    while i < assigns.len()
        invariant
            i <= assigns@.len(),
            out@ == base + render_assigns(assigns@, i as int),
        decreases assigns@.len() - i,
    {
        let ghost pre = out@;
        out.append("    ");
        out.append(assigns[i].as_str());
        out.append("\n");
        proof {
            assert(out@ =~= pre + "    "@ + assigns@[i as int]@ + "\n"@);
            assert(out@ =~= base + render_assigns(assigns@, i as int + 1));
        }
        i = i + 1;
    }
}

impl Netlist {
    /// All widths in the netlist admit a bit range.
    pub open spec fn widths_ok(self) -> bool {
        &&& forall|i: int|
            0 <= i < self.modules@.len() ==> module_widths_ok(#[trigger] self.modules@[i])
        &&& module_widths_ok(self.top_module)
    }

    pub fn new() -> (r: Self)
        ensures
            r.modules@ == Seq::<VerilogModule>::empty(),
            r.top_module.name@ == "top"@,
            r.top_module.inputs@ == Seq::<(String, usize)>::empty(),
            r.top_module.outputs@ == Seq::<(String, usize)>::empty(),
            r.top_module.wires@ == Seq::<(String, usize)>::empty(),
            r.top_module.assignments@ == Seq::<String>::empty(),
    {
        Self {
            modules: Vec::new(),
            top_module: VerilogModule {
                name: String::from_str("top"),
                inputs: Vec::new(),
                outputs: Vec::new(),
                wires: Vec::new(),
                assignments: Vec::new(),
            },
        }
    }

    /// Generate the netlist from a scheduled DAG: walking the execution
    /// order, each morphism node yields one module, objects yield none;
    /// then the top module gains one 8-bit input and output port pair
    /// per declared object, in declaration order.
    ///
    /// The module list holds exactly one module per morphism node of the
    /// graph (see `lemma_built_morphism_count` for the count in terms of
    /// the statement sequence), and a graph whose cycle prevents
    /// scheduling yields the scheduler's error unchanged.
    pub fn from_dag(dag: &CategoryDAG, ast: &CategoryAST) -> (r: Result<Self, String>)
        requires
            dag.wf(),
        ensures
            match r {
                Ok(nl) => {
                    &&& nl.modules@.len() == morph_node_count(
                        dag.nodes@,
                        dag.nodes@.len() as int,
                    )
                    &&& exists|ord: Seq<usize>|
                        #[trigger] is_topo_order(dag.nodes@.len() as int, dag.edges@, ord)
                            && nl.modules@.len() == scheduled_morphisms(
                            dag.nodes@,
                            ord,
                            ord.len() as int,
                        ).len() && (forall|i: int|
                            0 <= i < nl.modules@.len() ==> is_morphism_module(
                                #[trigger] nl.modules@[i],
                                scheduled_morphisms(dag.nodes@, ord, ord.len() as int)[i].0,
                                scheduled_morphisms(dag.nodes@, ord, ord.len() as int)[i].1,
                                scheduled_morphisms(dag.nodes@, ord, ord.len() as int)[i].2,
                            ))
                    &&& is_top_module(nl.top_module, object_names(ast.statements@))
                    &&& nl.widths_ok()
                },
                Err(e) => (exists|s: Set<usize>|
                    blocked_set(dag.edges@, dag.nodes@.len() as int, s)) && e@
                    == "Cycle detected in DAG"@,
            },
    {
        let mut netlist = Self::new();
        // Get execution order
        let execution_order = match dag.get_execution_order() {
            Ok(o) => o,
            Err(e) => {
                return Err(e);
            },
        };
        let ghost ord = execution_order@;
        // Generate modules for each morphism
        let mut k: usize = 0;
        while k < execution_order.len()
            invariant
                dag.wf(),
                ord == execution_order@,
                is_topo_order(dag.nodes@.len() as int, dag.edges@, ord),
                k <= ord.len(),
                netlist.modules@.len() == scheduled_morphisms(dag.nodes@, ord, k as int).len(),
                forall|i: int|
                    0 <= i < netlist.modules@.len() ==> is_morphism_module(
                        #[trigger] netlist.modules@[i],
                        scheduled_morphisms(dag.nodes@, ord, k as int)[i].0,
                        scheduled_morphisms(dag.nodes@, ord, k as int)[i].1,
                        scheduled_morphisms(dag.nodes@, ord, k as int)[i].2,
                    ),
                forall|i: int|
                    0 <= i < netlist.modules@.len() ==> module_widths_ok(
                        #[trigger] netlist.modules@[i],
                    ),
                netlist.top_module.name@ == "top"@,
                netlist.top_module.inputs@.len() == 0,
                netlist.top_module.outputs@.len() == 0,
                netlist.top_module.wires@.len() == 0,
                netlist.top_module.assignments@.len() == 0,
            decreases ord.len() - k,
        {
            let node_idx = execution_order[k];
            match &dag.nodes[node_idx] {
                DAGNode::Morphism { name, from, to } => {
                    let mut mod_name = String::from_str("morphism_");
                    mod_name.append(name.as_str());
                    let mut in_name = String::from_str("in_");
                    in_name.append(from.as_str());
                    let mut out_name = String::from_str("out_");
                    out_name.append(to.as_str());
                    let mut assign = String::from_str("assign out_");
                    assign.append(to.as_str());
                    assign.append(" = in_");
                    assign.append(from.as_str());
                    assign.append(" + 1; // Placeholder logic");
                    let mut inputs: Vec<(String, usize)> = Vec::new();
                    inputs.push((in_name, 8));
                    let mut outputs: Vec<(String, usize)> = Vec::new();
                    outputs.push((out_name, 8));
                    let mut assignments: Vec<String> = Vec::new();
                    assignments.push(assign);
                    let module = VerilogModule {
                        name: mod_name,
                        inputs,
                        outputs,
                        wires: Vec::new(),
                        assignments,
                    };
                    netlist.modules.push(module);
                    proof {
                        assert(scheduled_morphisms(dag.nodes@, ord, k as int + 1)
                            =~= scheduled_morphisms(dag.nodes@, ord, k as int) + seq![
                            (name@, from@, to@),
                        ]);
                    }
                },
                DAGNode::Object { name } => {
                    proof {
                        assert(scheduled_morphisms(dag.nodes@, ord, k as int + 1)
                            =~= scheduled_morphisms(dag.nodes@, ord, k as int));
                    }
                },
            }
            k = k + 1;
        }
        // Build top module
        let objects = ast.get_objects();
        let ghost objs = object_names(ast.statements@);
        let mut i: usize = 0;
        while i < objects.len()
            invariant
                i <= objects@.len(),
                objects@.len() == objs.len(),
                forall|j: int| 0 <= j < objs.len() ==> (#[trigger] objects@[j])@ == objs[j],
                netlist.top_module.name@ == "top"@,
                netlist.top_module.inputs@.len() == i,
                forall|j: int|
                    0 <= j < i ==> (#[trigger] netlist.top_module.inputs@[j]).0@ == "in_"@
                        + objs[j] && netlist.top_module.inputs@[j].1 == 8,
                netlist.top_module.outputs@.len() == i,
                forall|j: int|
                    0 <= j < i ==> (#[trigger] netlist.top_module.outputs@[j]).0@ == "out_"@
                        + objs[j] && netlist.top_module.outputs@[j].1 == 8,
                netlist.top_module.wires@.len() == 0,
                netlist.top_module.assignments@.len() == 0,
                netlist.modules@.len() == scheduled_morphisms(dag.nodes@, ord, ord.len() as int).len(),
                is_topo_order(dag.nodes@.len() as int, dag.edges@, ord),
                forall|j: int|
                    0 <= j < netlist.modules@.len() ==> is_morphism_module(
                        #[trigger] netlist.modules@[j],
                        scheduled_morphisms(dag.nodes@, ord, ord.len() as int)[j].0,
                        scheduled_morphisms(dag.nodes@, ord, ord.len() as int)[j].1,
                        scheduled_morphisms(dag.nodes@, ord, ord.len() as int)[j].2,
                    ),
                forall|j: int|
                    0 <= j < netlist.modules@.len() ==> module_widths_ok(
                        #[trigger] netlist.modules@[j],
                    ),
                scheduled_morphisms(dag.nodes@, ord, ord.len() as int).len() == morph_node_count(
                    dag.nodes@,
                    dag.nodes@.len() as int,
                ),
            decreases objects@.len() - i,
        {
            let mut in_name = String::from_str("in_");
            in_name.append(objects[i].as_str());
            netlist.top_module.inputs.push((in_name, 8));
            let mut out_name = String::from_str("out_");
            out_name.append(objects[i].as_str());
            netlist.top_module.outputs.push((out_name, 8));
            i = i + 1;
        }
        Ok(netlist)
    }

    /// Generate Verilog code as a string: each morphism module in
    /// scheduled order followed by a blank line, the top module last.
    pub fn to_verilog(&self) -> (r: String)
        requires
            self.widths_ok(),
        ensures
            r@ == render_netlist(*self),
    {
        let mut verilog = String::new();
        // Generate individual modules
        let mut i: usize = 0;
        assert(verilog@ =~= render_modules(self.modules@, 0));
        while i < self.modules.len()
            invariant
                self.widths_ok(),
                i <= self.modules@.len(),
                verilog@ == render_modules(self.modules@, i as int),
            decreases self.modules@.len() - i,
        {
            let ghost pre = verilog@;
            let m = self.module_to_verilog(&self.modules[i]);
            verilog.append(m.as_str());
            verilog.append("\n\n");
            proof {
                assert(verilog@ =~= render_modules(self.modules@, i as int + 1));
            }
            i = i + 1;
        }
        // Generate top module
        let t = self.module_to_verilog(&self.top_module);
        verilog.append(t.as_str());
        assert(verilog@ =~= render_netlist(*self));
        verilog
    }

    /// Render one module as Verilog text.
    pub fn module_to_verilog(&self, module: &VerilogModule) -> (r: String)
        requires
            module_widths_ok(*module),
        ensures
            r@ == render_module(*module),
    {
        let mut verilog = String::from_str("module ");
        verilog.append(module.name.as_str());
        verilog.append(" (\n");
        // Inputs, then outputs
        append_ports(&mut verilog, &module.inputs, "input", module.outputs.len() > 0);
        append_ports(&mut verilog, &module.outputs, "output", false);
        verilog.append(");\n\n");
        // Wires
        append_wires(&mut verilog, &module.wires);
        if module.wires.len() > 0 {
            verilog.append("\n");
        }
        // Assignments
        append_assigns(&mut verilog, &module.assignments);
        verilog.append("endmodule\n");
        assert(verilog@ =~= render_module(*module));
        verilog
    }
}

} // verus!

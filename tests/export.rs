use circom_core::export::{i64_text, u64_text, constraint_to_json, port_constraints, sym_file_text, Constraint, DebugWriter, SymElem};

fn lc(entries: &[(usize, &str)]) -> Vec<(usize, String)> {
    entries.iter().map(|(i, c)| (*i, c.to_string())).collect()
}

fn product_constraint() -> Constraint {
    Constraint { a: lc(&[(2, "1")]), b: lc(&[(3, "1")]), c: lc(&[(1, "1")]) }
}

fn product_symbols() -> Vec<SymElem> {
    vec![
        SymElem { original: 1, witness: 1, node_id: 0, symbol: "main.c".to_string() },
        SymElem { original: 2, witness: 2, node_id: 0, symbol: "main.a".to_string() },
        SymElem { original: 3, witness: 3, node_id: 0, symbol: "main.b".to_string() },
    ]
}

#[test]
fn multiplier_exports_one_constraint_and_three_symbols() {
    let doc = port_constraints(&vec![product_constraint()]);
    assert_eq!(doc, "{\n\"constraints\": [\n[{\"2\":\"1\"},{\"3\":\"1\"},{\"1\":\"1\"}]\n]\n}");
    let sym = sym_file_text(&product_symbols());
    assert_eq!(sym, "1,1,0,main.c\n2,2,0,main.a\n3,3,0,main.b\n");
    assert_eq!(sym.lines().count(), 3);
}

#[test]
fn export_is_deterministic() {
    let cs = vec![product_constraint(), product_constraint()];
    assert_eq!(port_constraints(&cs), port_constraints(&cs.clone()));
    assert_eq!(sym_file_text(&product_symbols()), sym_file_text(&product_symbols()));
}

#[test]
fn several_constraints_are_comma_separated() {
    let second = Constraint { a: lc(&[]), b: lc(&[]), c: lc(&[(0, "21888242871839275222246405745257275088548364400416034343698204186575808495616"), (10, "5")]) };
    let doc = port_constraints(&vec![product_constraint(), second]);
    assert_eq!(
        doc,
        "{\n\"constraints\": [\n[{\"2\":\"1\"},{\"3\":\"1\"},{\"1\":\"1\"}],\n[{},{},{\"0\":\"21888242871839275222246405745257275088548364400416034343698204186575808495616\",\"10\":\"5\"}]\n]\n}"
    );
}

#[test]
fn empty_constraint_list() {
    assert_eq!(port_constraints(&vec![]), "{\n\"constraints\": [\n]\n}");
    assert_eq!(sym_file_text(&vec![]), "");
}

#[test]
fn combination_and_constraint_text() {
    let c = Constraint { a: lc(&[(2, "3"), (10, "4")]), b: lc(&[]), c: lc(&[(1, "7")]) };
    assert_eq!(constraint_to_json(&c), "[{\"10\":\"4\",\"2\":\"3\"},{},{\"1\":\"7\"}]");
    assert_eq!(constraint_to_json(&product_constraint()), "[{\"2\":\"1\"},{\"3\":\"1\"},{\"1\":\"1\"}]");
}

#[test]
fn sym_line_with_negative_fields() {
    let e = SymElem { original: -1, witness: 1234567890123, node_id: 42, symbol: "main.x[0]".to_string() };
    assert_eq!(e.to_string(), "-1,1234567890123,42,main.x[0]");
}

#[test]
fn debug_writer_keeps_its_path() {
    let w = DebugWriter::new("out/constraints.json".to_string());
    assert_eq!(w.json_constraints, "out/constraints.json");
}

#[test]
fn decimal_numerals_at_the_extremes() {
    assert_eq!(u64_text(0), "0");
    assert_eq!(u64_text(10), "10");
    assert_eq!(u64_text(u64::MAX), "18446744073709551615");
    assert_eq!(i64_text(i64::MIN), "-9223372036854775808");
    assert_eq!(i64_text(-7), "-7");
    assert_eq!(i64_text(i64::MAX), "9223372036854775807");
}

use extract_operators::aggregate::{count_ops, unique_ops};
use extract_operators::report::{
    destination, join_lines, output_file_path, plan_output, render, Destination, Mode, Outcome,
};
use extract_operators::text::{text_equal, text_less};
use extract_operators::tree::{extract_operator_types, Element, Node};

fn element(name: &str, attrs: &[(&str, &str)], children: Vec<Node>) -> Element {
    Element {
        name: name.to_string(),
        attributes: attrs.iter().map(|(k, v)| (k.to_string(), v.to_string())).collect(),
        children,
    }
}

fn layer(t: &str) -> Node {
    Node::Element(element("layer", &[("id", "0"), ("type", t)], vec![]))
}

fn strings(v: &[&str]) -> Vec<String> {
    v.iter().map(|s| s.to_string()).collect()
}

fn conv_relu_net() -> Element {
    element(
        "net",
        &[],
        vec![Node::Element(element(
            "layers",
            &[],
            vec![layer("Conv"), layer("ReLU"), layer("Conv")],
        ))],
    )
}

#[test]
fn scenario_count_mode_lines() {
    let ops = extract_operator_types(&conv_relu_net());
    assert_eq!(ops, strings(&["Conv", "ReLU", "Conv"]));
    assert_eq!(render(&ops, Mode::Count), "Conv: 2\nReLU: 1");
}

#[test]
fn scenario_unique_mode_lines() {
    let ops = extract_operator_types(&conv_relu_net());
    assert_eq!(render(&ops, Mode::Unique), "Conv\nReLU");
}

#[test]
fn scenario_output_dir_paths() {
    assert_eq!(output_file_path("/tmp", "model.xml", Mode::Unique), "/tmp/model.txt");
    assert_eq!(output_file_path("/tmp", "model.xml", Mode::Count), "/tmp/model_counts.txt");
}

#[test]
fn output_path_strips_directories_and_suffix_only() {
    assert_eq!(output_file_path("out", "a/b/net.xml", Mode::Unique), "out/net.txt");
    assert_eq!(output_file_path("out", "dir/net", Mode::Count), "out/net_counts.txt");
    assert_eq!(output_file_path("out", "a.xml.bak", Mode::Unique), "out/a.xml.bak.txt");
    assert_eq!(output_file_path("o", "x/", Mode::Unique), "o/.txt");
}

#[test]
fn extraction_follows_preorder() {
    // layer A holds B and C (C holds D); E follows A; text in between.
    let d = element("layer", &[("type", "D")], vec![]);
    let c = element("layer", &[("type", "C")], vec![Node::Element(d)]);
    let b = element("layer", &[("type", "B")], vec![Node::Text("x".to_string())]);
    let a = element(
        "layer",
        &[("type", "A")],
        vec![Node::Element(b), Node::Other, Node::Element(c)],
    );
    let e = element("layer", &[("type", "E")], vec![]);
    let root = element(
        "net",
        &[],
        vec![Node::Text("t".to_string()), Node::Element(a), Node::Element(e)],
    );
    assert_eq!(extract_operator_types(&root), strings(&["A", "B", "C", "D", "E"]));
}

#[test]
fn extraction_skips_untyped_and_other_tags() {
    let root = element(
        "net",
        &[("type", "Net")],
        vec![
            Node::Element(element("layer", &[("name", "x")], vec![layer("Inner")])),
            Node::Element(element("edge", &[("type", "Edge")], vec![])),
            layer("Add"),
        ],
    );
    assert_eq!(extract_operator_types(&root), strings(&["Inner", "Add"]));
}

#[test]
fn extraction_handles_deep_nesting() {
    let mut e = element("layer", &[("type", "Leaf")], vec![]);
    for _ in 0..100_000 {
        e = element("layer", &[], vec![Node::Element(e)]);
    }
    let ops = extract_operator_types(&e);
    assert_eq!(ops, strings(&["Leaf"]));
    // Take the chain apart by hand so that dropping it does not recurse.
    let mut cur = e;
    while let Some(Node::Element(child)) = cur.children.pop() {
        cur = child;
    }
}

#[test]
fn unique_ignores_input_order() {
    let a = strings(&["Conv", "ReLU", "Add", "Conv", "Pool"]);
    let b = strings(&["Pool", "Conv", "Add", "ReLU", "Conv"]);
    assert_eq!(unique_ops(&a), unique_ops(&b));
    assert_eq!(unique_ops(&a), strings(&["Add", "Conv", "Pool", "ReLU"]));
}

#[test]
fn count_totals_match_typed_layers() {
    let root = element(
        "net",
        &[],
        vec![
            layer("Conv"),
            Node::Element(element("layer", &[], vec![])),
            layer("Conv"),
            layer("MatMul"),
        ],
    );
    let ops = extract_operator_types(&root);
    let counts = count_ops(&ops);
    let total: usize = counts.iter().map(|(_, c)| *c).sum();
    assert_eq!(total, 3);
    assert_eq!(counts, vec![("Conv".to_string(), 2), ("MatMul".to_string(), 1)]);
}

#[test]
fn unique_and_count_names_agree() {
    let ops = strings(&["b", "a", "c", "a", "b", "a"]);
    let names: Vec<String> = count_ops(&ops).into_iter().map(|(n, _)| n).collect();
    assert_eq!(unique_ops(&ops), names);
    assert_eq!(names, strings(&["a", "b", "c"]));
}

#[test]
fn counts_above_nine_print_all_digits() {
    let ops: Vec<String> = (0..12).map(|_| "Conv".to_string()).collect();
    assert_eq!(render(&ops, Mode::Count), "Conv: 12");
    let many: Vec<String> = (0..105).map(|_| "X".to_string()).collect();
    assert_eq!(render(&many, Mode::Count), "X: 105");
}

#[test]
fn sorting_is_by_code_point() {
    let ops = strings(&["relu", "ReLU", "Add", "ab", "a", "Ä"]);
    assert_eq!(unique_ops(&ops), strings(&["Add", "ReLU", "a", "ab", "relu", "Ä"]));
    assert!(text_less("a", "ab"));
    assert!(!text_less("ab", "a"));
    assert!(!text_less("x", "x"));
    assert!(text_less("Z", "a"));
    assert!(text_equal("layer", "layer"));
    assert!(!text_equal("layer", "layers"));
}

#[test]
fn empty_input_reports_no_operators() {
    let root = element("net", &[], vec![Node::Element(element("layers", &[], vec![]))]);
    let ops = extract_operator_types(&root);
    assert!(ops.is_empty());
    for dest in [
        Destination::Clipboard,
        Destination::Directory("/tmp".to_string()),
        Destination::Stdout,
    ] {
        assert_eq!(plan_output("model.xml", &ops, Mode::Count, &dest), Outcome::NoOperators);
        assert_eq!(plan_output("model.xml", &ops, Mode::Unique, &dest), Outcome::NoOperators);
    }
    assert_eq!(render(&ops, Mode::Unique), "");
}

#[test]
fn plan_sends_summary_to_each_destination() {
    let ops = strings(&["ReLU", "Conv", "Conv"]);
    assert_eq!(
        plan_output("m/model.xml", &ops, Mode::Count, &Destination::Stdout),
        Outcome::ToStdout("Conv: 2\nReLU: 1".to_string())
    );
    assert_eq!(
        plan_output("m/model.xml", &ops, Mode::Unique, &Destination::Clipboard),
        Outcome::ToClipboard("Conv\nReLU".to_string())
    );
    assert_eq!(
        plan_output("m/model.xml", &ops, Mode::Count, &Destination::Directory("/tmp".to_string())),
        Outcome::ToFile {
            path: "/tmp/model_counts.txt".to_string(),
            contents: "Conv: 2\nReLU: 1\n".to_string(),
        }
    );
}

#[test]
fn clipboard_takes_precedence_over_directory() {
    assert_eq!(destination(true, Some("/tmp".to_string())), Destination::Clipboard);
    assert_eq!(destination(false, Some("/tmp".to_string())), Destination::Directory("/tmp".to_string()));
    assert_eq!(destination(false, None), Destination::Stdout);
}

#[test]
fn attribute_lookup_takes_first_match() {
    let e = element("layer", &[("id", "3"), ("type", "Conv"), ("type", "Other")], vec![]);
    assert_eq!(e.attribute("type"), Some(&"Conv".to_string()));
    assert_eq!(e.attribute("name"), None);
    assert!(e.is_layer());
    assert_eq!(e.operator_type(), Some(&"Conv".to_string()));
}

#[test]
fn join_lines_puts_newlines_between() {
    assert_eq!(join_lines(&strings(&["a", "b", "c"])), "a\nb\nc");
    assert_eq!(join_lines(&strings(&["only"])), "only");
    assert_eq!(join_lines(&Vec::new()), "");
}

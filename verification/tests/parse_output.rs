use aog::formatter::format_parse_output;
use aog::parser::Parser;

fn parse(input: &str) -> Parser {
    let mut p = Parser::new();
    p.parse(input.as_bytes()).unwrap();
    p
}

#[test]
fn json_of_plain_grid() {
    let p = parse(
        "\
+---+---+
| _ . _ |
+ . + . +
| _ . _ |
+---+---+
",
    );
    assert_eq!(
        format_parse_output(&p),
        "{\n  \"rules\": [],\n  \"cells\": {\n    \"a1\": \"_\", \"a2\": \"_\",\n    \"b1\": \"_\", \"b2\": \"_\"},\n  \"edges\": {},\n  \"vertices\": {}\n}\n"
    );
}

#[test]
fn json_lists_rules_and_clues() {
    let p = parse(
        "\
precision 4
bricky
+---+---+
| 3 . _ |
+ . +-d-+
| _ . _ |
+---+---+
",
    );
    let out = format_parse_output(&p);
    assert!(out.contains("\"rules\": [\n    \"bricky\",\n    \"precision 4\"]"), "{out}");
    assert!(out.contains("\"a1\": \"3\""), "{out}");
    assert!(out.contains("\"a2-b2\": \"d\""), "{out}");
}

#[test]
fn json_includes_drawn_solution() {
    let p = parse(
        "\
+---+---+
| _ . _ |
+ . + . +
| _ . _ |
+---+---+
# +---+---+
# | 1   1 |
# +---+---+
# | 2   2 |
# +---+---+
",
    );
    let out = format_parse_output(&p);
    assert!(
        out.ends_with(",\n  \"solution\": {\n    \"a1\": 1, \"a2\": 1,\n    \"b1\": 2, \"b2\": 2}\n}\n"),
        "{out}"
    );
}

#[test]
fn json_escapes_shape_drawings() {
    let mut p = parse(
        "\
+---+---+
| _ . _ |
+ . + . +
| _ . _ |
+---+---+
",
    );
    let shape = aog::polyomino::parse_shape(&["##", "#.", "##"]);
    p.puzzle.cell_clues.push(aog::types::CellClue::Polyomino { cell: 0, shape });
    let out = format_parse_output(&p);
    assert!(out.contains("\"a1\": \"U\""), "{out}");
    let odd = aog::polyomino::parse_shape(&["###", "#.#", "###"]);
    p.puzzle.cell_clues.push(aog::types::CellClue::Polyomino { cell: 1, shape: odd });
    let out = format_parse_output(&p);
    assert!(out.contains("\"a2\": \"###\\n#.#\\n###\""), "{out}");
}

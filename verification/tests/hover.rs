use zed_mojom::hover::{
    find_documented_name_range, find_documented_name_range_at_offset,
    find_documented_name_range_at_position, find_enum_name_range, find_enum_name_range_at_offset,
    find_statement_name_range, find_statement_name_range_at_offset, hover_from_lsp_range,
    hover_from_syntax_range, match_name, match_offset, offset_from_position, Position, PositionRange,
};
use zed_mojom::syntax::{
    Const, Enum, EnumValue, Import, Interface, InterfaceMember, Method, Module, Mojom, MojomAst, Range,
    Statement, Struct, StructBody, StructField, Union, UnionField,
};

const TEXT: &str = "module demo.mojom;\n\
import \"other.mojom\";\n\
// A greeter.\n\
interface Greeter {\n\
  const int32 kMax = 3;\n\
  enum Mood { HAPPY, SAD };\n\
  // Says hello.\n\
  Greet(string name);\n\
};\n\
struct Point {\n\
  enum Axis { X, Y };\n\
  int32 x;\n\
};\n\
union Value {\n\
  int32 number;\n\
};\n\
enum Color { RED };\n\
const int32 kTop = 1;\n";

fn range_of(needle: &str) -> Range {
    let start = TEXT.find(needle).expect("needle present");
    Range { start, end: start + needle.len() }
}

fn range_after(anchor: &str, needle: &str) -> Range {
    let base = TEXT.find(anchor).expect("anchor present");
    let start = base + TEXT[base..].find(needle).expect("needle present");
    Range { start, end: start + needle.len() }
}

fn ast() -> MojomAst {
    let mood = Enum {
        name: range_of("Mood"),
        values: vec![EnumValue { name: range_of("HAPPY") }, EnumValue { name: range_of("SAD") }],
    };
    let axis = Enum {
        name: range_of("Axis"),
        values: vec![EnumValue { name: range_after("Axis", "X") }, EnumValue { name: range_after("Axis {", "Y") }],
    };
    MojomAst {
        text: TEXT.to_string(),
        mojom: Mojom {
            stmts: vec![
                Statement::Module(Module { name: range_of("demo.mojom") }),
                Statement::Import(Import { path: range_of("\"other.mojom\"") }),
                Statement::Interface(Interface {
                    name: range_of("Greeter"),
                    members: vec![
                        InterfaceMember::Const(Const { name: range_of("kMax") }),
                        InterfaceMember::Enum(mood),
                        InterfaceMember::Method(Method { name: range_after("Says hello.", "Greet") }),
                    ],
                }),
                Statement::Struct(Struct {
                    name: range_of("Point"),
                    members: vec![
                        StructBody::Enum(axis),
                        StructBody::Field(StructField { name: range_after("int32 x", "x") }),
                    ],
                }),
                Statement::Union(Union {
                    name: range_of("Value"),
                    fields: vec![UnionField { name: range_of("number") }],
                }),
                Statement::Enum(Enum { name: range_of("Color"), values: vec![EnumValue { name: range_of("RED") }] }),
                Statement::Const(Const { name: range_of("kTop") }),
            ],
        },
    }
}

#[test]
fn finds_top_level_names() {
    let ast = ast();
    assert_eq!(find_documented_name_range("Greeter", &ast), Some(range_of("Greeter")));
    assert_eq!(find_documented_name_range("demo.mojom", &ast), Some(range_of("demo.mojom")));
    assert_eq!(find_documented_name_range("kTop", &ast), Some(range_of("kTop")));
    assert_eq!(find_documented_name_range("Color", &ast), Some(range_of("Color")));
    assert_eq!(find_documented_name_range("Value", &ast), Some(range_of("Value")));
}

#[test]
fn finds_members_bare_and_qualified() {
    let ast = ast();
    assert_eq!(find_documented_name_range("Greet", &ast), Some(range_of("Greet(")).map(|r| Range { start: r.start, end: r.end - 1 }));
    assert_eq!(find_documented_name_range("Greeter.Greet", &ast), find_documented_name_range("Greet", &ast));
    assert_eq!(find_documented_name_range("Greeter.kMax", &ast), Some(range_of("kMax")));
    assert_eq!(find_documented_name_range("Greeter.Mood.SAD", &ast), Some(range_of("SAD")));
    assert_eq!(find_documented_name_range("Point.Axis.Y", &ast), Some(range_after("Axis {", "Y")));
    assert_eq!(find_documented_name_range("Value.number", &ast), Some(range_of("number")));
    assert_eq!(find_documented_name_range("Color.RED", &ast), Some(range_of("RED")));
    assert_eq!(find_documented_name_range("HAPPY", &ast), Some(range_of("HAPPY")));
}

#[test]
fn partial_qualification_does_not_match() {
    let ast = ast();
    assert_eq!(find_documented_name_range("Mood.SAD", &ast), None);
    assert_eq!(find_documented_name_range("Point.Y", &ast), None);
    assert_eq!(find_documented_name_range("Missing", &ast), None);
    assert_eq!(find_documented_name_range("other.mojom", &ast), None);
}

#[test]
fn first_declaration_wins() {
    let ast = ast();
    assert_eq!(find_documented_name_range("x", &ast), Some(range_after("int32 x", "x")));
    assert_eq!(find_documented_name_range("X", &ast), Some(range_after("Axis", "X")));
    let text = "const int32 A = 1;\nconst int32 A = 2;";
    let first = Range { start: 12, end: 13 };
    let second = Range { start: 31, end: 32 };
    assert_eq!(&text[first.start..first.end], "A");
    assert_eq!(&text[second.start..second.end], "A");
    let twice = MojomAst {
        text: text.to_string(),
        mojom: Mojom {
            stmts: vec![Statement::Const(Const { name: first }), Statement::Const(Const { name: second })],
        },
    };
    assert_eq!(find_documented_name_range("A", &twice), Some(first));
}

#[test]
fn statement_and_enum_lookups_keep_the_path() {
    let ast = ast();
    let mut path: Vec<Vec<u8>> = vec![b"outer".to_vec()];
    let greeter = &ast.mojom.stmts[2];
    assert_eq!(find_statement_name_range("Greeter", &ast, greeter, &mut path), Some(range_of("Greeter")));
    assert_eq!(find_statement_name_range("outer.Greeter.Greet", &ast, greeter, &mut path).is_some(), true);
    assert_eq!(path, vec![b"outer".to_vec()]);
    let mood = Enum { name: range_of("Mood"), values: vec![EnumValue { name: range_of("SAD") }] };
    assert_eq!(find_enum_name_range("outer.Mood.SAD", &ast, &mood, &mut path), Some(range_of("SAD")));
    assert_eq!(find_enum_name_range("Mood.SAD", &ast, &mood, &mut path), None);
    assert_eq!(path, vec![b"outer".to_vec()]);
}

#[test]
fn match_name_uses_the_path() {
    let ast = ast();
    let name = range_of("Greet(");
    let name = Range { start: name.start, end: name.end - 1 };
    let path = vec![b"A".to_vec(), b"B".to_vec()];
    assert_eq!(match_name("A.B.Greet", &ast, &name, &path), Some(name));
    assert_eq!(match_name("Greet", &ast, &name, &path), Some(name));
    assert_eq!(match_name("B.Greet", &ast, &name, &path), None);
    assert_eq!(match_name("Greet", &ast, &name, &Vec::new()), Some(name));
}

#[test]
fn offsets_find_enclosing_names() {
    let ast = ast();
    let greeter = range_of("Greeter");
    assert_eq!(find_documented_name_range_at_offset(greeter.start, &ast), Some(greeter));
    assert_eq!(find_documented_name_range_at_offset(greeter.end, &ast), Some(greeter));
    let sad = range_of("SAD");
    assert_eq!(find_documented_name_range_at_offset(sad.start + 1, &ast), Some(sad));
    assert_eq!(find_documented_name_range_at_offset(TEXT.find("// A").unwrap(), &ast), None);
    assert_eq!(find_statement_name_range_at_offset(sad.start, &ast.mojom.stmts[2]), Some(sad));
    assert_eq!(find_statement_name_range_at_offset(sad.start, &ast.mojom.stmts[1]), None);
    let mood = Enum { name: range_of("Mood"), values: vec![EnumValue { name: sad }] };
    assert_eq!(find_enum_name_range_at_offset(sad.end, &mood), Some(sad));
    assert_eq!(match_offset(5, &Range { start: 5, end: 5 }), Some(Range { start: 5, end: 5 }));
    assert_eq!(match_offset(6, &Range { start: 2, end: 5 }), None);
}

#[test]
fn positions_find_names() {
    let ast = ast();
    // Line 3 is `interface Greeter {`; column 12 is inside `Greeter`.
    let position = Position { line: 3, character: 12 };
    assert_eq!(offset_from_position(TEXT, &position), Some(range_of("Greeter").start + 2));
    assert_eq!(find_documented_name_range_at_position(TEXT, &position, &ast), Some(range_of("Greeter")));
    assert_eq!(find_documented_name_range_at_position(TEXT, &Position { line: 99, character: 0 }, &ast), None);
}

#[test]
fn hovers_show_documentation() {
    assert_eq!(hover_from_syntax_range(TEXT, &range_of("Greeter")), Some("A greeter.".to_string()));
    let greet = range_of("Greet(");
    assert_eq!(hover_from_syntax_range(TEXT, &greet), Some("Says hello.".to_string()));
    assert_eq!(hover_from_syntax_range(TEXT, &range_of("Point")), None);
    let start = Position { line: 7, character: 2 };
    let range = PositionRange { start, end: Position { line: 7, character: 7 } };
    assert_eq!(hover_from_lsp_range(TEXT, &range), Some("Says hello.".to_string()));
    let past = PositionRange { start: Position { line: 40, character: 0 }, end: Position { line: 40, character: 0 } };
    assert_eq!(hover_from_lsp_range(TEXT, &past), None);
}

#[test]
fn found_names_are_found_at_their_start() {
    let ast = ast();
    for ident in ["Greeter.Greet", "Point.Axis.Y", "Value.number", "kTop", "HAPPY"] {
        let found = find_documented_name_range(ident, &ast).expect("declared");
        let at_start = find_documented_name_range_at_offset(found.start, &ast).expect("hoverable");
        assert!(at_start.start <= found.start && found.start <= at_start.end);
    }
}

#[test]
fn syntax_ranges_checked_against_text() {
    let ast = ast();
    assert!(ast.ranges_within_text());
    let bad = MojomAst {
        text: "const int32 A = 1;".to_string(),
        mojom: Mojom { stmts: vec![Statement::Const(Const { name: Range { start: 12, end: 40 } })] },
    };
    assert!(!bad.ranges_within_text());
    let backwards = MojomAst {
        text: "const int32 A = 1;".to_string(),
        mojom: Mojom { stmts: vec![Statement::Const(Const { name: Range { start: 13, end: 12 } })] },
    };
    assert!(!backwards.ranges_within_text());
}

#[test]
fn file_lookup_is_the_first_statement_match() {
    let ast = ast();
    for ident in ["Greeter", "Greeter.Greet", "Point.Axis.Y", "Value.number", "RED", "kTop", "demo.mojom", "Missing"] {
        let mut expected = None;
        for statement in ast.mojom.stmts.iter() {
            let mut path: Vec<Vec<u8>> = Vec::new();
            if let Some(r) = find_statement_name_range(ident, &ast, statement, &mut path) {
                expected = Some(r);
                break;
            }
        }
        assert_eq!(find_documented_name_range(ident, &ast), expected);
    }
    assert_eq!(find_documented_name_range("demo.mojom.Greeter", &ast), None);
}

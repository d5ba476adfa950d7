use gc_lite::codegen::derive::{
    expand_gc_trace, field_kind, next_kind, Attribute, Body, Call, Data, DeriveError, DeriveInput,
    Field, FieldKind, Fields, Meta, Param, Shape, Target, TraceImpl, Variant,
};
use gc_lite::codegen::type_table::{
    gc_type_table_internal, table_entry, table_head, TableError, Token, TokenKind, TypeTableEntry,
    TypeTableInput,
};

fn gc(args: Vec<Meta>) -> Attribute {
    Attribute { name: "gc".to_string(), args }
}

fn skip() -> Attribute {
    gc(vec![Meta::Flag("skip".to_string())])
}

fn with(path: &str) -> Attribute {
    gc(vec![Meta::Value("with".to_string(), Some(path.to_string()))])
}

fn field(name: &str, attrs: Vec<Attribute>) -> Field {
    Field { name: name.to_string(), attrs }
}

fn item(name: &str, params: Vec<Param>, data: Data) -> DeriveInput {
    DeriveInput { name: name.to_string(), params, data }
}

fn expand(name: &str, data: Data) -> TraceImpl {
    expand_gc_trace(&item(name, Vec::new(), data)).unwrap()
}

/// The call as it reads in the generated code.
fn text(c: &Call) -> String {
    let target = match &c.target {
        Target::Named(n) => format!("&self.{}", n),
        Target::Index(i) => format!("&self.{}", i),
        Target::Binding(n) => n.clone(),
        Target::Slot(i) => format!("__field_{}", i),
    };
    match &c.path {
        Some(p) => format!("{}({}, __gc_trace_ctx);", p, target),
        None => format!("::gc_lite::GcTrace::trace({}, __gc_trace_ctx);", target),
    }
}

fn struct_calls(t: &TraceImpl) -> Vec<String> {
    match &t.body {
        Body::Calls(list) => list.iter().map(text).collect(),
        Body::Match(_) => panic!("not a struct"),
    }
}

fn trace_call(field_access: &str) -> String {
    format!("::gc_lite::GcTrace::trace({}, __gc_trace_ctx);", field_access)
}

#[test]
fn named_struct_traces_every_field() {
    // struct S { a: u32, b: Vec<u8>, c: String }
    let fields = vec![field("a", vec![]), field("b", vec![]), field("c", vec![])];
    let out = struct_calls(&expand("S", Data::Struct(Fields::Named(fields))));
    for f in ["a", "b", "c"] {
        let call = trace_call(&format!("&self.{}", f));
        assert!(out.contains(&call), "missing `{call}` in:\n{out:?}");
    }
    assert_eq!(out.len(), 3);
}

#[test]
fn skip_field_emits_no_call() {
    // struct S { a: u32, #[gc(skip)] raw: *mut u8 }
    let fields = vec![field("a", vec![]), field("raw", vec![skip()])];
    let out = struct_calls(&expand("S", Data::Struct(Fields::Named(fields))));
    assert!(out.contains(&trace_call("&self.a")));
    assert!(!out.contains(&trace_call("&self.raw")));
}

#[test]
fn with_attribute_calls_given_path() {
    // struct S { #[gc(with = "my::trace_it")] items: Vec<u8> }
    let fields = vec![field("items", vec![with("my::trace_it")])];
    let out = struct_calls(&expand("S", Data::Struct(Fields::Named(fields))));
    let expected = "my::trace_it(&self.items, __gc_trace_ctx);".to_string();
    assert!(out.contains(&expected), "missing `{expected}` in:\n{out:?}");
}

#[test]
fn enum_generates_variant_match() {
    // enum E { Leaf(u32), Node { l: u8, r: Option<u8> }, Empty }
    let variants = vec![
        Variant { name: "Leaf".to_string(), fields: Fields::Unnamed(vec![field("", vec![])]) },
        Variant {
            name: "Node".to_string(),
            fields: Fields::Named(vec![field("l", vec![]), field("r", vec![])]),
        },
        Variant { name: "Empty".to_string(), fields: Fields::Unit },
    ];
    let out = expand("E", Data::Enum(variants));
    let arms = match out.body {
        Body::Match(arms) => arms,
        Body::Calls(_) => panic!("no match"),
    };
    assert_eq!(arms.len(), 3);

    assert_eq!(arms[0].variant, "Leaf");
    assert_eq!(arms[0].shape, Shape::Unnamed);
    assert_eq!(arms[0].pattern.iter().map(|b| b.bound).collect::<Vec<_>>(), vec![true]);
    assert_eq!(text(&arms[0].calls[0]), trace_call("__field_0"));

    assert_eq!(arms[1].variant, "Node");
    assert_eq!(arms[1].shape, Shape::Named);
    let names: Vec<&str> = arms[1].pattern.iter().map(|b| b.name.as_str()).collect();
    assert_eq!(names, vec!["l", "r"]);
    assert!(arms[1].pattern.iter().all(|b| b.bound));

    assert_eq!(arms[2].variant, "Empty");
    assert_eq!(arms[2].shape, Shape::Unit);
    assert!(arms[2].pattern.is_empty());

    // 1 (Leaf) + 2 (Node) = 3 traced bindings, 0 for Empty
    let count: usize = arms.iter().map(|a| a.calls.len()).sum();
    assert_eq!(count, 3);
}

#[test]
fn generic_struct_gets_gc_trace_bound() {
    // struct Wrap<T> { inner: Vec<T> }
    let params = vec![Param { name: "T".to_string(), is_type: true, bounds: vec![] }];
    let fields = Fields::Named(vec![field("inner", vec![])]);
    let out = expand_gc_trace(&item("Wrap", params, Data::Struct(fields))).unwrap();
    assert_eq!(out.name, "Wrap");
    assert_eq!(out.params.len(), 1);
    assert_eq!(out.params[0].name, "T");
    assert_eq!(out.params[0].bounds, vec!["::gc_lite::GcTrace".to_string()]);
}

#[test]
fn unit_struct_generates_empty_body() {
    // struct Unit;
    let out = expand("Unit", Data::Struct(Fields::Unit));
    assert_eq!(out.name, "Unit");
    assert_eq!(struct_calls(&out).len(), 0);
}

#[test]
fn unknown_gc_attr_is_rejected() {
    // struct S { #[gc(nope)] a: u32 }
    let fields = vec![field("a", vec![gc(vec![Meta::Flag("nope".to_string())])])];
    let err = expand_gc_trace(&item("S", vec![], Data::Struct(Fields::Named(fields))))
        .unwrap_err()
        .message();
    assert!(err.contains("unknown `gc` attribute"), "{err}");
}

#[test]
fn duplicate_gc_attr_is_rejected() {
    // struct S { #[gc(skip)] #[gc(skip)] a: u32 }
    let fields = vec![field("a", vec![skip(), skip()])];
    let err = expand_gc_trace(&item("S", vec![], Data::Struct(Fields::Named(fields))))
        .unwrap_err()
        .message();
    assert!(err.contains("duplicate `gc` attribute"), "{err}");
}

#[test]
fn unions_are_rejected() {
    let err = expand_gc_trace(&item("U", vec![], Data::Union)).unwrap_err();
    assert_eq!(err, DeriveError::Union);
    assert_eq!(err.message(), "GcTrace cannot be derived for unions");
}

#[test]
fn lifetimes_get_no_bound_and_other_bounds_stay() {
    let params = vec![
        Param { name: "'a".to_string(), is_type: false, bounds: vec![] },
        Param { name: "T".to_string(), is_type: true, bounds: vec!["Clone".to_string()] },
    ];
    let out = expand_gc_trace(&item("W", params, Data::Struct(Fields::Unit))).unwrap();
    assert!(out.params[0].bounds.is_empty());
    assert_eq!(
        out.params[1].bounds,
        vec!["Clone".to_string(), "::gc_lite::GcTrace".to_string()]
    );
}

#[test]
fn tuple_fields_keep_their_positions() {
    let fields = vec![field("", vec![]), field("", vec![skip()]), field("", vec![with("f")])];
    let out = struct_calls(&expand("P", Data::Struct(Fields::Unnamed(fields))));
    assert_eq!(
        out,
        vec![trace_call("&self.0"), "f(&self.2, __gc_trace_ctx);".to_string()]
    );
}

#[test]
fn skipped_fields_of_a_variant_are_not_bound() {
    let v = Variant {
        name: "V".to_string(),
        fields: Fields::Named(vec![field("a", vec![skip()]), field("b", vec![with("m::f")])]),
    };
    let arm = gc_lite::codegen::derive::variant_arm(&v).unwrap();
    assert!(!arm.pattern[0].bound);
    assert!(arm.pattern[1].bound);
    assert_eq!(arm.calls.len(), 1);
    assert_eq!(text(&arm.calls[0]), "m::f(b, __gc_trace_ctx);");
}

#[test]
fn attributes_of_other_names_do_not_count() {
    let other = Attribute { name: "serde".to_string(), args: vec![Meta::Broken] };
    assert!(matches!(field_kind(&vec![other]), Ok(FieldKind::Trace)));
    assert!(matches!(field_kind(&vec![]), Ok(FieldKind::Trace)));
    assert!(matches!(field_kind(&vec![skip()]), Ok(FieldKind::Skip)));
}

#[test]
fn a_function_must_be_named_by_a_path() {
    match field_kind(&vec![with("a::b::<u8>::c")]) {
        Ok(FieldKind::With(p)) => assert_eq!(p, "a::b::<u8>::c"),
        _ => panic!("a path was refused"),
    }
    assert_eq!(field_kind(&vec![with("1 + 2")]).unwrap_err(), DeriveError::Syntax);
    assert_eq!(field_kind(&vec![with("")]).unwrap_err(), DeriveError::Syntax);
}

#[test]
fn items_are_judged_in_order() {
    let flag = |k: &str| Meta::Flag(k.to_string());
    let value = |k: &str, v: Option<&str>| Meta::Value(k.to_string(), v.map(|s| s.to_string()));
    assert!(matches!(next_kind(false, &flag("skip"), false), Ok(FieldKind::Skip)));
    assert_eq!(next_kind(true, &flag("skip"), false).unwrap_err(), DeriveError::Duplicate);
    assert_eq!(next_kind(false, &flag("with"), true).unwrap_err(), DeriveError::Syntax);
    assert_eq!(next_kind(true, &flag("no"), true).unwrap_err(), DeriveError::UnknownKey);
    assert_eq!(next_kind(false, &value("skip", Some("x")), true).unwrap_err(), DeriveError::Syntax);
    assert_eq!(next_kind(false, &value("with", None), true).unwrap_err(), DeriveError::Syntax);
    assert_eq!(next_kind(false, &value("with", Some("1")), false).unwrap_err(), DeriveError::Syntax);
    assert_eq!(next_kind(true, &value("with", Some("f")), true).unwrap_err(), DeriveError::Duplicate);
    assert_eq!(next_kind(false, &value("no", Some("f")), true).unwrap_err(), DeriveError::UnknownKey);
    assert_eq!(next_kind(false, &Meta::Broken, true).unwrap_err(), DeriveError::Syntax);
    let both = gc(vec![flag("skip"), value("with", Some("f"))]);
    assert_eq!(field_kind(&vec![both]).unwrap_err(), DeriveError::Duplicate);
}

fn word(t: &str) -> Token {
    Token { kind: TokenKind::Word, text: t.to_string(), joint: false }
}

fn mark(t: &str) -> Token {
    Token { kind: TokenKind::Mark, text: t.to_string(), joint: false }
}

fn joint(t: &str) -> Token {
    Token { kind: TokenKind::Mark, text: t.to_string(), joint: true }
}

fn unit(t: &str) -> Token {
    Token { kind: TokenKind::Unit, text: t.to_string(), joint: false }
}

/// `crate_path = a::b;`
fn head() -> Vec<Token> {
    vec![
        word("crate_path"),
        mark("="),
        word("a"),
        joint(":"),
        mark(":"),
        word("b"),
        mark(";"),
    ]
}

fn parse(rest: Vec<Token>) -> Result<TypeTableInput, TableError> {
    let mut toks = head();
    toks.extend(rest);
    TypeTableInput::parse(&toks)
}

#[test]
fn a_declaration_is_read() {
    // Node, drop_pass = 2; Map<K, fn(A) -> B>; u8;
    let input = parse(vec![
        word("Node"),
        mark(","),
        word("drop_pass"),
        mark("="),
        unit("2"),
        mark(";"),
        word("Map"),
        mark("<"),
        word("K"),
        mark(","),
        word("fn"),
        unit("(A)"),
        joint("-"),
        mark(">"),
        word("B"),
        mark(">"),
        mark(";"),
        word("u8"),
        mark(";"),
    ])
    .unwrap();
    assert_eq!(input.crate_path, "a :: b ");
    assert_eq!(input.entries.len(), 3);
    assert_eq!(input.entries[0].ty, "Node ");
    assert_eq!(input.entries[0].drop_pass, Some(2));
    assert_eq!(input.entries[1].ty, "Map < K , fn (A) -> B > ");
    assert_eq!(input.entries[1].drop_pass, None);
    assert_eq!(input.entries[2].ty, "u8 ");

    let table = gc_type_table_internal(&input).unwrap();
    let rows: Vec<(u8, u8)> = table.rows.iter().map(|r| (r.id, r.drop_pass)).collect();
    assert_eq!(rows, vec![(0, 2), (1, 0), (2, 0)]);
    assert_eq!(table.drop_passes, vec![0, 2]);
    assert!(parse(vec![]).unwrap().entries.is_empty());
}

#[test]
fn every_error_of_a_declaration_is_told() {
    let err = |t: Vec<Token>| TypeTableInput::parse(&t).unwrap_err();
    assert_eq!(err(vec![]), TableError::Syntax);
    assert_eq!(err(vec![word("crate"), mark("=")]), TableError::Syntax);
    assert_eq!(err(vec![word("path"), mark("=")]), TableError::CratePath);
    assert_eq!(err(vec![word("crate_path")]), TableError::Syntax);
    assert_eq!(err(vec![word("crate_path"), mark("="), word("a")]), TableError::Syntax);
    assert_eq!(
        err(vec![word("crate_path"), mark("="), unit("3"), mark(";")]),
        TableError::Syntax
    );
    assert_eq!(parse(vec![word("T")]).unwrap_err(), TableError::Syntax);
    assert_eq!(parse(vec![unit("3"), mark(";")]).unwrap_err(), TableError::Syntax);
    assert_eq!(parse(vec![mark(";")]).unwrap_err(), TableError::Syntax);
    let pass = |key: &str, value: &str| {
        parse(vec![word("T"), mark(","), word(key), mark("="), unit(value), mark(";")])
    };
    assert_eq!(pass("drop", "1").unwrap_err(), TableError::DropPass);
    assert_eq!(pass("drop_pass", "4").unwrap_err(), TableError::PassRange);
    assert_eq!(pass("drop_pass", "300").unwrap_err(), TableError::Syntax);
    assert_eq!(pass("drop_pass", "x").unwrap_err(), TableError::Syntax);
    assert_eq!(pass("type", "1").unwrap_err(), TableError::Syntax);
    assert_eq!(pass("drop_pass", "3").unwrap().entries[0].drop_pass, Some(3));
    assert_eq!(
        parse(vec![word("T"), mark(","), word("drop_pass")]).unwrap_err(),
        TableError::Syntax
    );
    assert_eq!(TableError::CratePath.message(), "expected `crate_path = <path>`");
    assert_eq!(
        TableError::DropPass.message(),
        "expected `drop_pass = N` or omit for default 0"
    );
    assert_eq!(TableError::PassRange.message(), "drop_pass must be 0, 1, 2 or 3");
    assert_eq!(
        TableError::TooMany.message(),
        "too many GC types: maximum 256 entries are supported"
    );
}

#[test]
fn heads_and_entries_follow_what_is_known_of_their_texts() {
    let toks = head();
    let (path, next) = table_head(&toks, true, true).unwrap();
    assert_eq!((path.as_str(), next), ("a :: b ", 7));
    assert_eq!(table_head(&toks, false, true).unwrap_err(), TableError::Syntax);
    assert_eq!(table_head(&toks, true, false).unwrap_err(), TableError::Syntax);

    let toks = vec![word("T"), mark(","), word("drop_pass"), mark("="), unit("?"), mark(";")];
    let (entry, next) = table_entry(&toks, 0, true, true, Some(1)).unwrap();
    assert_eq!((entry.ty.as_str(), entry.drop_pass, next), ("T ", Some(1), 6));
    assert_eq!(table_entry(&toks, 0, false, true, Some(1)).unwrap_err(), TableError::Syntax);
    assert_eq!(table_entry(&toks, 0, true, false, Some(1)).unwrap_err(), TableError::Syntax);
    assert_eq!(table_entry(&toks, 0, true, true, None).unwrap_err(), TableError::Syntax);
    assert_eq!(table_entry(&toks, 0, true, true, Some(4)).unwrap_err(), TableError::PassRange);
}

#[test]
fn more_than_256_types_are_refused() {
    let table = |n: usize| {
        let entries = (0..n)
            .map(|i| TypeTableEntry { ty: format!("T{}", i), drop_pass: Some((i % 4) as u8) })
            .collect();
        gc_type_table_internal(&TypeTableInput { crate_path: "c".to_string(), entries })
    };
    let full = table(256).unwrap();
    assert_eq!(full.rows.len(), 256);
    assert_eq!(full.rows[255].id, 255);
    assert_eq!(full.rows[255].ty, "T255");
    assert_eq!(full.drop_passes, vec![0, 1, 2, 3]);
    assert_eq!(table(257).unwrap_err(), TableError::TooMany);
    assert!(table(0).unwrap().drop_passes.is_empty());
}

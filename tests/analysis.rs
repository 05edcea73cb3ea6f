use simple_responder::attrs::{
    code_from_value, AttrError, ErrorKind, Field, FieldType, Fields, FieldsAttrs, FieldsKind, Seg, Tok,
    TokenPos, TypeAttrs,
};
use simple_responder::item::{
    binding_names, DeclData, Declaration, Diagnostic, Item, ItemData, Response, Site, VariantDecl,
};

fn ident(s: &str) -> Tok {
    Tok::Ident(s.to_string())
}

fn punct(c: char) -> Tok {
    Tok::Punct(c)
}

fn lit(s: &str) -> Tok {
    Tok::Lit(s.to_string())
}

fn code(text: &str) -> Vec<Tok> {
    vec![ident("code"), punct('='), lit(text)]
}

fn delegate_pos(k: &str) -> Vec<Tok> {
    vec![ident("delegate"), punct('='), punct('.'), lit(k)]
}

fn marker() -> Vec<Tok> {
    vec![ident("delegate")]
}

fn ty(text: &str, idents: &[&str]) -> FieldType {
    FieldType {
        text: text.to_string(),
        idents: idents.iter().map(|s| s.to_string()).collect(),
    }
}

fn positional(types: Vec<(FieldType, Vec<Vec<Tok>>)>) -> Fields {
    Fields {
        kind: FieldsKind::Unnamed,
        fields: types
            .into_iter()
            .map(|(ty, attrs)| Field { ident: None, ty, attrs })
            .collect(),
    }
}

fn unit() -> Fields {
    Fields { kind: FieldsKind::Unit, fields: vec![] }
}

fn variant(name: &str, attrs: Vec<Vec<Tok>>, fields: Fields) -> VariantDecl {
    VariantDecl { ident: name.to_string(), attrs, fields }
}

fn decl(params: &[&str], attrs: Vec<Vec<Tok>>, data: DeclData) -> Declaration {
    Declaration {
        ident: "Error".to_string(),
        type_params: params.iter().map(|s| s.to_string()).collect(),
        attrs,
        data,
    }
}

fn parse(d: &Declaration) -> Result<Item, Diagnostic> {
    Item::parse(d)
}

fn struct_code(d: &Declaration) -> u16 {
    match parse(d) {
        Ok(Item { data: ItemData::Struct(s) }) => match s.response {
            Response::Code(c) => c.code,
            Response::Delegate(_) => panic!("expected a code"),
        },
        _ => panic!("expected a struct"),
    }
}

fn error_of(d: &Declaration) -> Diagnostic {
    match parse(d) {
        Err(e) => e,
        Ok(_) => panic!("expected a rejection"),
    }
}

fn type_error(kind: ErrorKind) -> Diagnostic {
    Diagnostic { kind, site: Site::Type, at: None }
}

fn pos(field: Option<usize>, attr: usize, tok: usize) -> Option<TokenPos> {
    Some(TokenPos { field, attr, tok })
}

fn type_error_at(kind: ErrorKind, attr: usize, tok: usize) -> Diagnostic {
    Diagnostic { kind, site: Site::Type, at: pos(None, attr, tok) }
}

fn field_error_at(kind: ErrorKind, field: usize, attr: usize, tok: usize) -> Diagnostic {
    Diagnostic { kind, site: Site::Type, at: pos(Some(field), attr, tok) }
}

/// Code of each variant, or the delegate field and whether it needs a bound.
fn variant_responses(d: &Declaration) -> Vec<Result<u16, (usize, usize, bool)>> {
    match parse(d) {
        Ok(Item { data: ItemData::Enum(e) }) => e
            .variants
            .iter()
            .map(|v| match &v.response {
                Response::Code(c) => Ok(c.code),
                Response::Delegate(g) => Err((g.field, g.rest.len(), g.bound)),
            })
            .collect(),
        _ => panic!("expected an enum"),
    }
}

fn sample_enum() -> Declaration {
    decl(
        &[],
        vec![code("500")],
        DeclData::Enum(vec![
            variant(
                "BadRequest",
                vec![code("400")],
                positional(vec![(ty("String", &["String"]), vec![])]),
            ),
            variant("NotFound", vec![code("404")], unit()),
            variant(
                "Auth",
                vec![delegate_pos("0")],
                positional(vec![(ty("AuthError", &["AuthError"]), vec![])]),
            ),
            variant("Other", vec![], unit()),
        ]),
    )
}

fn auth_enum() -> Declaration {
    decl(
        &[],
        vec![],
        DeclData::Enum(vec![
            variant("Unauthorized", vec![code("401")], unit()),
            variant("Forbidden", vec![code("403")], unit()),
        ]),
    )
}

fn generic_enum() -> Declaration {
    decl(
        &["T", "E"],
        vec![],
        DeclData::Enum(vec![
            variant(
                "InternalServerError",
                vec![code("500")],
                positional(vec![(ty("String", &["String"]), vec![])]),
            ),
            variant(
                "OtherError",
                vec![],
                positional(vec![(ty("T", &["T"]), vec![marker()])]),
            ),
            variant(
                "OtherError2",
                vec![],
                positional(vec![(ty("E::A", &["E", "A"]), vec![marker()])]),
            ),
        ]),
    )
}

// The scenarios below check what the analysis decides for each unit: its
// status code, or the field it forwards to. The response itself (status,
// content type, body) is built by the code that the derive generates.

#[test]
fn struct_case1() {
    let d = decl(&[], vec![code("500")], DeclData::Struct(unit()));
    assert_eq!(struct_code(&d), 500);
}

#[test]
fn enum_case1() {
    assert_eq!(variant_responses(&sample_enum())[0], Ok(400));
}

#[test]
fn enum_case2() {
    assert_eq!(variant_responses(&sample_enum())[1], Ok(404));
}

#[test]
fn enum_case3() {
    assert_eq!(variant_responses(&sample_enum())[3], Ok(500));
}

#[test]
fn case4() {
    let r = variant_responses(&sample_enum());
    assert_eq!(r[2], Err((0, 0, false)));
    assert_eq!(variant_responses(&auth_enum())[1], Ok(403));
}

#[test]
fn generics_case1() {
    assert_eq!(variant_responses(&generic_enum())[1], Err((0, 0, true)));
}

#[test]
fn generics_case2() {
    assert_eq!(variant_responses(&generic_enum())[0], Ok(500));
}

#[test]
fn generics_case3() {
    assert_eq!(variant_responses(&generic_enum())[2], Err((0, 0, true)));
}

#[test]
fn whole_enum_resolves_in_order() {
    assert_eq!(
        variant_responses(&sample_enum()),
        vec![Ok(400), Ok(404), Err((0, 0, false)), Ok(500)]
    );
}

#[test]
fn sibling_code_does_not_leak() {
    let d = decl(
        &[],
        vec![code("503")],
        DeclData::Enum(vec![
            variant("A", vec![code("418")], unit()),
            variant("B", vec![], unit()),
            variant("C", vec![code("202")], unit()),
        ]),
    );
    assert_eq!(variant_responses(&d), vec![Ok(418), Ok(503), Ok(202)]);
}

#[test]
fn every_code_in_the_registry_is_kept() {
    for c in [100u16, 102, 200, 204, 226, 301, 308, 400, 404, 418, 421, 451, 500, 511] {
        let d = decl(&[], vec![code(&c.to_string())], DeclData::Struct(unit()));
        assert_eq!(struct_code(&d), c);
    }
}

#[test]
fn literal_forms_are_read_by_value() {
    let d = decl(&[], vec![code("404u16")], DeclData::Struct(unit()));
    assert_eq!(struct_code(&d), 404);
    let d = decl(&[], vec![code("4_0_3")], DeclData::Struct(unit()));
    assert_eq!(struct_code(&d), 403);
}

#[test]
fn unregistered_code_is_rejected() {
    for text in ["600", "99", "0", "419", "509"] {
        let d = decl(&[], vec![code(text)], DeclData::Struct(unit()));
        assert_eq!(error_of(&d), type_error_at(ErrorKind::InvalidStatusCode, 0, 2));
    }
}

#[test]
fn non_integer_literal_is_rejected() {
    for text in ["70000", "\"500\"", "abc", "c\"x\"", "b'4'", "-500", ""] {
        let d = decl(&[], vec![code(text)], DeclData::Struct(unit()));
        assert_eq!(error_of(&d), type_error_at(ErrorKind::BadLiteral, 0, 2));
    }
}

#[test]
fn missing_code_on_struct() {
    let d = decl(&[], vec![], DeclData::Struct(unit()));
    assert_eq!(error_of(&d), type_error(ErrorKind::Missing));
}

#[test]
fn missing_code_on_variant() {
    let d = decl(
        &[],
        vec![],
        DeclData::Enum(vec![
            variant("A", vec![code("400")], unit()),
            variant("B", vec![], unit()),
        ]),
    );
    assert_eq!(
        error_of(&d),
        Diagnostic { kind: ErrorKind::Missing, site: Site::Variant(1), at: None }
    );
}

#[test]
fn duplicate_code_in_one_attribute() {
    let mut both = code("500");
    both.push(punct(','));
    both.extend(code("400"));
    let d = decl(&[], vec![both], DeclData::Struct(unit()));
    assert_eq!(error_of(&d), type_error_at(ErrorKind::DuplicateCode, 0, 4));
}

#[test]
fn duplicate_code_in_two_attributes() {
    let d = decl(&[], vec![code("500"), code("500")], DeclData::Struct(unit()));
    assert_eq!(error_of(&d), type_error_at(ErrorKind::DuplicateCode, 1, 0));
}

#[test]
fn duplicate_delegate_marker() {
    let fields = positional(vec![
        (ty("A", &["A"]), vec![marker()]),
        (ty("B", &["B"]), vec![marker()]),
    ]);
    let d = decl(&[], vec![], DeclData::Struct(fields));
    assert_eq!(error_of(&d), field_error_at(ErrorKind::DuplicateDelegate, 1, 0, 0));
}

#[test]
fn code_and_delegate_conflict_in_either_order() {
    let f = || positional(vec![(ty("A", &["A"]), vec![])]);
    let d1 = decl(&[], vec![code("500"), delegate_pos("0")], DeclData::Struct(f()));
    let d2 = decl(&[], vec![delegate_pos("0"), code("500")], DeclData::Struct(f()));
    assert_eq!(error_of(&d1), type_error_at(ErrorKind::CodeAndDelegate, 1, 0));
    assert_eq!(error_of(&d2), type_error_at(ErrorKind::CodeAndDelegate, 0, 0));
    let marked = positional(vec![(ty("A", &["A"]), vec![marker()])]);
    let d3 = decl(&[], vec![code("500")], DeclData::Struct(marked));
    assert_eq!(error_of(&d3), field_error_at(ErrorKind::CodeAndDelegate, 0, 0, 0));
}

#[test]
fn conflict_wins_over_duplicate() {
    let f = positional(vec![(ty("A", &["A"]), vec![])]);
    let d = decl(
        &[],
        vec![code("500"), code("400"), delegate_pos("0")],
        DeclData::Struct(f),
    );
    assert_eq!(error_of(&d), type_error_at(ErrorKind::CodeAndDelegate, 2, 0));
}

#[test]
fn unknown_directive_is_rejected() {
    let d = decl(
        &[],
        vec![vec![ident("status"), punct('='), lit("500")]],
        DeclData::Struct(unit()),
    );
    assert_eq!(error_of(&d), type_error_at(ErrorKind::UnknownDirective, 0, 0));
}

#[test]
fn malformed_directives_are_rejected() {
    let cases = vec![
        (vec![], 0),
        (vec![ident("code")], 0),
        (vec![ident("code"), punct('='), lit("500"), punct(',')], 4),
        (vec![ident("code"), punct('='), lit("500"), ident("delegate")], 0),
        (vec![ident("delegate")], 0),
        (vec![ident("delegate"), punct('='), punct('.')], 0),
        (vec![ident("delegate"), punct('='), lit("0")], 0),
    ];
    for (toks, at) in cases {
        let d = decl(&[], vec![toks], DeclData::Struct(unit()));
        assert_eq!(error_of(&d), type_error_at(ErrorKind::Malformed, 0, at));
    }
}

#[test]
fn code_on_a_field_is_not_a_directive() {
    let f = positional(vec![(ty("A", &["A"]), vec![code("500")])]);
    let d = decl(&[], vec![code("500")], DeclData::Struct(f));
    assert_eq!(
        error_of(&d),
        Diagnostic { kind: ErrorKind::UnknownDirective, site: Site::Type, at: pos(Some(0), 0, 0) }
    );
}

#[test]
fn delegate_on_enum_type_is_rejected() {
    let d = decl(&[], vec![delegate_pos("0")], DeclData::Enum(vec![]));
    assert_eq!(error_of(&d), type_error_at(ErrorKind::DelegateOnEnum, 0, 0));
}

#[test]
fn duplicate_code_on_enum_type_is_rejected() {
    let d = decl(&[], vec![code("500"), code("400")], DeclData::Enum(vec![]));
    assert_eq!(error_of(&d), type_error_at(ErrorKind::DuplicateCode, 1, 0));
}

#[test]
fn union_with_code() {
    let f = Fields {
        kind: FieldsKind::Named,
        fields: vec![Field { ident: Some("a".to_string()), ty: ty("u32", &["u32"]), attrs: vec![] }],
    };
    let d = decl(&[], vec![code("500")], DeclData::Union(f));
    match parse(&d) {
        Ok(Item { data: ItemData::Union(u) }) => assert_eq!(u.code.code, 500),
        _ => panic!("expected a union"),
    }
}

#[test]
fn delegate_on_union_is_rejected() {
    let f = Fields {
        kind: FieldsKind::Named,
        fields: vec![Field {
            ident: Some("a".to_string()),
            ty: ty("u32", &["u32"]),
            attrs: vec![marker()],
        }],
    };
    let d = decl(&[], vec![code("500")], DeclData::Union(f));
    assert_eq!(error_of(&d), field_error_at(ErrorKind::DelegateOnUnion, 0, 0, 0));
    let d = decl(&[], vec![], DeclData::Union(unit()));
    assert_eq!(error_of(&d), type_error(ErrorKind::Missing));
}

#[test]
fn union_without_code_is_rejected_before_its_fields() {
    let f = Fields {
        kind: FieldsKind::Named,
        fields: vec![Field {
            ident: Some("a".to_string()),
            ty: ty("u32", &["u32"]),
            attrs: vec![marker()],
        }],
    };
    let d = decl(&[], vec![], DeclData::Union(f));
    assert_eq!(error_of(&d), type_error(ErrorKind::Missing));
}

#[test]
fn delegate_to_missing_field_is_rejected() {
    let f = positional(vec![(ty("A", &["A"]), vec![])]);
    let d = decl(&[], vec![delegate_pos("1")], DeclData::Struct(f));
    assert_eq!(error_of(&d), type_error(ErrorKind::UnknownField));
    let d = decl(
        &[],
        vec![vec![ident("delegate"), punct('='), punct('.'), ident("inner")]],
        DeclData::Struct(positional(vec![(ty("A", &["A"]), vec![])])),
    );
    assert_eq!(error_of(&d), type_error(ErrorKind::UnknownField));
}

#[test]
fn delegate_by_name_and_deeper_path() {
    let f = Fields {
        kind: FieldsKind::Named,
        fields: vec![
            Field { ident: Some("msg".to_string()), ty: ty("String", &["String"]), attrs: vec![] },
            Field { ident: Some("inner".to_string()), ty: ty("T", &["T"]), attrs: vec![] },
        ],
    };
    let toks = vec![
        ident("delegate"),
        punct('='),
        punct('.'),
        ident("inner"),
        punct('.'),
        lit("0"),
    ];
    let d = decl(&["T"], vec![toks], DeclData::Struct(f));
    match parse(&d) {
        Ok(Item { data: ItemData::Struct(s) }) => match s.response {
            Response::Delegate(g) => {
                assert_eq!(g.field, 1);
                assert_eq!(g.rest.len(), 1);
                assert!(matches!(g.rest[0], Seg::Index(0)));
                assert!(!g.bound);
            }
            Response::Code(_) => panic!("expected a delegate"),
        },
        _ => panic!("expected a struct"),
    }
}

#[test]
fn delegate_to_generic_field_needs_bound() {
    let f = Fields {
        kind: FieldsKind::Named,
        fields: vec![Field {
            ident: Some("inner".to_string()),
            ty: ty("Vec<T>", &["Vec", "T"]),
            attrs: vec![marker()],
        }],
    };
    let d = decl(&["T"], vec![], DeclData::Struct(f));
    match parse(&d) {
        Ok(Item { data: ItemData::Struct(s) }) => match s.response {
            Response::Delegate(g) => {
                assert_eq!(g.field, 0);
                assert!(g.bound);
            }
            Response::Code(_) => panic!("expected a delegate"),
        },
        _ => panic!("expected a struct"),
    }
}

#[test]
fn first_failing_variant_is_reported() {
    let d = decl(
        &[],
        vec![],
        DeclData::Enum(vec![
            variant("A", vec![code("400")], unit()),
            variant("B", vec![code("600")], unit()),
            variant("C", vec![], unit()),
        ]),
    );
    assert_eq!(
        error_of(&d),
        Diagnostic {
            kind: ErrorKind::InvalidStatusCode,
            site: Site::Variant(1),
            at: pos(None, 0, 2),
        }
    );
}

#[test]
fn code_value_checks() {
    assert_eq!(code_from_value(Some(404)), Ok(404));
    assert_eq!(code_from_value(Some(511)), Ok(511));
    assert_eq!(code_from_value(Some(512)), Err(ErrorKind::InvalidStatusCode));
    assert_eq!(code_from_value(Some(600)), Err(ErrorKind::InvalidStatusCode));
    assert_eq!(code_from_value(None), Err(ErrorKind::BadLiteral));
}

fn type_attrs_error(attrs: Vec<Vec<Tok>>) -> ErrorKind {
    match TypeAttrs::new(&attrs) {
        Err(e) => e.kind,
        Ok(_) => panic!("expected a rejection"),
    }
}

fn fields_attrs_error(fields: &Fields) -> ErrorKind {
    match FieldsAttrs::new(fields) {
        Err(e) => e.kind,
        Ok(_) => panic!("expected a rejection"),
    }
}

#[test]
fn type_attrs_keep_one_code() {
    let t = TypeAttrs::new(&vec![code("404")]).unwrap();
    assert_eq!(t.code.map(|c| c.code), Some(404));
    assert!(t.delegate.is_none());
    let empty = TypeAttrs::new(&vec![]).unwrap();
    assert!(empty.code.is_none() && empty.delegate.is_none());
}

#[test]
fn type_attrs_reject_repeated_code() {
    let mut both = code("400");
    both.push(punct(','));
    both.extend(code("401"));
    assert_eq!(type_attrs_error(vec![both]), ErrorKind::DuplicateCode);
    assert_eq!(type_attrs_error(vec![code("404"), code("404")]), ErrorKind::DuplicateCode);
}

#[test]
fn type_attrs_reject_repeated_delegate() {
    assert_eq!(
        type_attrs_error(vec![delegate_pos("0"), delegate_pos("1")]),
        ErrorKind::DuplicateDelegate
    );
}

#[test]
fn type_attrs_reject_code_and_delegate() {
    assert_eq!(
        type_attrs_error(vec![code("400"), delegate_pos("0")]),
        ErrorKind::CodeAndDelegate
    );
    let mut one = delegate_pos("0");
    one.push(punct(','));
    one.extend(code("400"));
    assert_eq!(type_attrs_error(vec![one]), ErrorKind::CodeAndDelegate);
}

#[test]
fn type_attrs_keep_delegate_path() {
    let t = TypeAttrs::new(&vec![delegate_pos("1")]).unwrap();
    assert!(t.code.is_none());
    let p = t.delegate.unwrap();
    assert_eq!(p.len(), 1);
    assert!(matches!(p[0], Seg::Index(1)));
}

#[test]
fn fields_attrs_find_the_marked_field() {
    let fields = positional(vec![
        (ty("A", &["A"]), vec![]),
        (ty("B", &["B"]), vec![marker()]),
    ]);
    assert_eq!(FieldsAttrs::new(&fields).unwrap().delegate, Some(1));
    let none = positional(vec![(ty("A", &["A"]), vec![])]);
    assert_eq!(FieldsAttrs::new(&none).unwrap().delegate, None);
}

#[test]
fn fields_attrs_reject_two_marked_fields() {
    let fields = positional(vec![
        (ty("A", &["A"]), vec![marker()]),
        (ty("B", &["B"]), vec![marker()]),
    ]);
    assert_eq!(fields_attrs_error(&fields), ErrorKind::DuplicateDelegate);
}

#[test]
fn fields_attrs_reject_repeated_marker_on_one_field() {
    let twice = vec![ident("delegate"), punct(','), ident("delegate")];
    let one_attr = positional(vec![(ty("T", &["T"]), vec![twice])]);
    assert_eq!(fields_attrs_error(&one_attr), ErrorKind::DuplicateDelegate);
    let two_attrs = positional(vec![(ty("T", &["T"]), vec![marker(), marker()])]);
    assert_eq!(fields_attrs_error(&two_attrs), ErrorKind::DuplicateDelegate);
}

#[test]
fn fields_attrs_reject_other_directives() {
    let fields = positional(vec![(ty("T", &["T"]), vec![code("400")])]);
    assert_eq!(fields_attrs_error(&fields), ErrorKind::UnknownDirective);
}

#[test]
fn code_with_two_markers_is_a_repetition() {
    let fields = positional(vec![
        (ty("A", &["A"]), vec![marker()]),
        (ty("B", &["B"]), vec![marker()]),
    ]);
    let d = decl(
        &[],
        vec![],
        DeclData::Enum(vec![variant("V", vec![code("400")], fields)]),
    );
    assert_eq!(
        error_of(&d),
        Diagnostic { kind: ErrorKind::DuplicateDelegate, site: Site::Variant(0), at: pos(Some(1), 0, 0) }
    );
}

#[test]
fn delegate_path_beside_marker_is_a_repetition() {
    let fields = positional(vec![(ty("A", &["A"]), vec![marker()])]);
    let d = decl(&[], vec![delegate_pos("0")], DeclData::Struct(fields));
    assert_eq!(error_of(&d), field_error_at(ErrorKind::DuplicateDelegate, 0, 0, 0));
}

#[test]
fn invalid_code_is_reported_on_its_literal() {
    let mut second = delegate_pos("0");
    second.push(punct(','));
    second.extend(code("600"));
    let attrs = vec![code("400"), second];
    let e = TypeAttrs::new(&attrs).err().unwrap();
    assert_eq!(
        e,
        AttrError { kind: ErrorKind::InvalidStatusCode, at: pos(None, 1, 7) }
    );
}

#[test]
fn field_error_is_reported_on_its_field() {
    let bad = vec![ident("delegate"), punct(','), ident("code")];
    let fields = positional(vec![
        (ty("A", &["A"]), vec![]),
        (ty("B", &["B"]), vec![marker(), bad]),
    ]);
    let e = FieldsAttrs::new(&fields).err().unwrap();
    assert_eq!(
        e,
        AttrError { kind: ErrorKind::UnknownDirective, at: pos(Some(1), 1, 2) }
    );
}

#[test]
fn repetition_is_reported_on_the_second_keyword() {
    let e = TypeAttrs::new(&vec![code("404"), code("404")]).err().unwrap();
    assert_eq!(e, AttrError { kind: ErrorKind::DuplicateCode, at: pos(None, 1, 0) });
}

#[test]
fn positional_fields_bind_by_position() {
    let types = (0..12).map(|_| (ty("u8", &["u8"]), vec![])).collect();
    let names = binding_names(&positional(types));
    assert_eq!(names.len(), 12);
    assert_eq!(names[0], "_0");
    assert_eq!(names[1], "_1");
    assert_eq!(names[10], "_10");
    assert_eq!(names[11], "_11");
}

#[test]
fn named_fields_bind_by_name() {
    let fields = Fields {
        kind: FieldsKind::Named,
        fields: vec![
            Field { ident: Some("inner".to_string()), ty: ty("T", &["T"]), attrs: vec![] },
            Field { ident: Some("code".to_string()), ty: ty("u16", &["u16"]), attrs: vec![] },
        ],
    };
    assert_eq!(binding_names(&fields), vec!["inner".to_string(), "code".to_string()]);
    assert!(binding_names(&unit()).is_empty());
}

#[test]
fn repeated_marker_is_reported_on_the_second_one() {
    let twice = vec![ident("delegate"), punct(','), ident("delegate")];
    let fields = positional(vec![(ty("T", &["T"]), vec![twice])]);
    let e = FieldsAttrs::new(&fields).err().unwrap();
    assert_eq!(e, AttrError { kind: ErrorKind::DuplicateDelegate, at: pos(Some(0), 0, 2) });
}

#[test]
fn field_named_code_in_a_path_is_no_keyword() {
    let path = vec![ident("delegate"), punct('='), punct('.'), ident("code")];
    let attrs = vec![path, code("400")];
    let e = TypeAttrs::new(&attrs).err().unwrap();
    assert_eq!(e, AttrError { kind: ErrorKind::CodeAndDelegate, at: pos(None, 0, 0) });
}

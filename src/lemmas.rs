use vstd::prelude::*;
use crate::attrs::{
    all_digits, all_directives, attr_directives, bare, code_word, count_codes, count_delegates,
    delegate_word, digits_value, directives_from, field_keywords, field_marks, fields_delegate,
    keyword_positions, last_code, last_delegate, lemma_count_codes_last, nth_pos, path_segs,
    step_ok, type_attrs, unit_attrs, AttrError, DirV, ErrorKind, Field, FieldsKind, SegV, Tok,
    TokenPos, UnitAttrsV,
};
use crate::status::{digit_led, int_literal_value, is_registered_status};
use crate::item::{
    analyze, at_type, delegate_to, lemma_resolve_variants_err, resolve_variant, resolve_variants,
    Declaration, Diagnostic, ItemV, RespV, Site, VariantDecl,
};

verus! {

/// A struct whose attributes give neither a code nor a delegate, and none of
/// whose fields is marked, is rejected because one of them must be specified.
pub proof fn lemma_struct_needs_code_or_delegate(d: Declaration)
    requires
        d.data is Struct,
        type_attrs(d.attrs@) == Ok::<UnitAttrsV, AttrError>(
            UnitAttrsV { code: None, delegate: None },
        ),
        fields_delegate(d.data->Struct_0.fields@) == Ok::<Option<nat>, AttrError>(None),
    ensures
        analyze(d) == Err::<ItemV, _>(at_type(bare(ErrorKind::Missing))),
{
}

/// A union whose attributes give no code is rejected because its code must
/// be specified, whatever its fields carry.
pub proof fn lemma_union_needs_code(d: Declaration, ty: UnitAttrsV)
    requires
        d.data is Union,
        type_attrs(d.attrs@) == Ok::<UnitAttrsV, AttrError>(ty),
        ty.code is None,
    ensures
        analyze(d) == Err::<ItemV, _>(at_type(bare(ErrorKind::Missing))),
{
}

/// A union with a code, one of whose fields carries the delegate marker, is
/// rejected because a union cannot delegate, reported on the first marker.
pub proof fn lemma_union_cannot_delegate(d: Declaration, c: u16, k: nat)
    requires
        d.data is Union,
        type_attrs(d.attrs@) == Ok::<UnitAttrsV, AttrError>(
            UnitAttrsV { code: Some(c), delegate: None },
        ),
        fields_delegate(d.data->Union_0.fields@) == Ok::<Option<nat>, AttrError>(Some(k)),
    ensures
        analyze(d) == Err::<ItemV, _>(
            at_type(
                AttrError {
                    kind: ErrorKind::DelegateOnUnion,
                    at: nth_pos(field_keywords(d.data->Union_0.fields@), 0),
                },
            ),
        ),
{
}

/// A variant without a code or a delegate of its own, under an enum that
/// gives no code, is rejected because one of them must be specified.
pub proof fn lemma_variant_needs_code_or_delegate(v: VariantDecl, params: Seq<String>)
    requires
        type_attrs(v.attrs@) == Ok::<UnitAttrsV, AttrError>(
            UnitAttrsV { code: None, delegate: None },
        ),
        fields_delegate(v.fields.fields@) == Ok::<Option<nat>, AttrError>(None),
    ensures
        resolve_variant(v, None, params) == Err::<RespV, _>(bare(ErrorKind::Missing)),
{
}

/// The own directives `own` beside the field markers `m` hold a code and a
/// delegate that conflict: a delegate path among the directives, or one
/// code beside one marked field. A second marker is reported as a repetition.
pub open spec fn code_meets_delegate(own: Seq<DirV>, m: Seq<nat>) -> bool {
    count_codes(own) > 0 && (count_delegates(own) > 0 || (count_codes(own) == 1 && m.len()
        == 1))
}

proof fn lemma_conflict_unit(own: Seq<DirV>, m: Seq<nat>)
    requires
        code_meets_delegate(own, m),
    ensures
        count_delegates(own) > 0 ==> unit_attrs(own) == Err::<UnitAttrsV, ErrorKind>(
            ErrorKind::CodeAndDelegate,
        ),
        count_delegates(own) == 0 ==> unit_attrs(own) == Ok::<UnitAttrsV, ErrorKind>(
            UnitAttrsV { code: last_code(own), delegate: None },
        ) && last_code(own) is Some,
{
    lemma_count_codes_last(own);
    lemma_delegate_absent(own);
}

/// A struct that carries both a code and a delegate (on itself or on a field),
/// in whatever order they are written, is rejected for the conflict.
pub proof fn lemma_struct_code_and_delegate_conflict(d: Declaration, own: Seq<DirV>, m: Seq<nat>)
    requires
        d.data is Struct,
        all_directives(d.attrs@, false) == Ok::<Seq<DirV>, AttrError>(own),
        field_marks(d.data->Struct_0.fields@) == Ok::<Seq<nat>, AttrError>(m),
        code_meets_delegate(own, m),
    ensures
        analyze(d) is Err,
        analyze(d)->Err_0.kind == ErrorKind::CodeAndDelegate,
        analyze(d)->Err_0.site == Site::Type,
{
    lemma_conflict_unit(own, m);
}

/// A variant that carries both a code and a delegate, in whatever order they
/// are written, is rejected for the conflict, whatever code the enum gives.
pub proof fn lemma_variant_code_and_delegate_conflict(
    v: VariantDecl,
    own: Seq<DirV>,
    m: Seq<nat>,
    inherited: Option<u16>,
    params: Seq<String>,
)
    requires
        all_directives(v.attrs@, false) == Ok::<Seq<DirV>, AttrError>(own),
        field_marks(v.fields.fields@) == Ok::<Seq<nat>, AttrError>(m),
        code_meets_delegate(own, m),
    ensures
        resolve_variant(v, inherited, params) is Err,
        resolve_variant(v, inherited, params)->Err_0.kind == ErrorKind::CodeAndDelegate,
{
    lemma_conflict_unit(own, m);
}

/// In an enum whose own attributes are accepted and whose variants before `i`
/// resolve, a variant `i` that carries both a code and a delegate, in whatever
/// order they are written, makes the analysis fail on that variant for the
/// conflict.
pub proof fn lemma_enum_code_and_delegate_conflict(
    d: Declaration,
    ty: UnitAttrsV,
    i: int,
    own: Seq<DirV>,
    m: Seq<nat>,
)
    requires
        d.data is Enum,
        type_attrs(d.attrs@) == Ok::<UnitAttrsV, AttrError>(ty),
        ty.delegate is None,
        0 <= i < d.data->Enum_0@.len(),
        resolve_variants(d.data->Enum_0@.subrange(0, i), ty.code, d.type_params@) is Ok,
        all_directives(d.data->Enum_0@[i].attrs@, false) == Ok::<Seq<DirV>, AttrError>(own),
        field_marks(d.data->Enum_0@[i].fields.fields@) == Ok::<Seq<nat>, AttrError>(m),
        code_meets_delegate(own, m),
    ensures
        analyze(d) is Err,
        analyze(d)->Err_0.kind == ErrorKind::CodeAndDelegate,
        analyze(d)->Err_0.site == Site::Variant(i as usize),
{
    let vs = d.data->Enum_0@;
    lemma_variant_code_and_delegate_conflict(vs[i], own, m, ty.code, d.type_params@);
    let pre = vs.subrange(0, i + 1);
    assert(pre.drop_last() =~= vs.subrange(0, i));
    assert(pre.last() == vs[i]);
    lemma_resolve_variants_err(vs, i + 1, ty.code, d.type_params@);
}

/// Two or more codes among a unit's own directives, with no delegate beside
/// them, are rejected as a repetition, in one attribute or in several.
pub proof fn lemma_repeated_code(attrs: Seq<Vec<Tok>>, own: Seq<DirV>)
    requires
        all_directives(attrs, false) == Ok::<Seq<DirV>, AttrError>(own),
        count_codes(own) > 1,
        count_delegates(own) == 0,
    ensures
        type_attrs(attrs) == Err::<UnitAttrsV, AttrError>(
            AttrError {
                kind: ErrorKind::DuplicateCode,
                at: nth_pos(keyword_positions(attrs, code_word()), 1),
            },
        ),
{
}

/// Two or more delegate markers on a list of fields, on one field or on
/// several, are rejected as a repetition.
pub proof fn lemma_repeated_marker(fs: Seq<Field>, m: Seq<nat>)
    requires
        field_marks(fs) == Ok::<Seq<nat>, AttrError>(m),
        m.len() > 1,
    ensures
        fields_delegate(fs) == Err::<Option<nat>, AttrError>(
            AttrError { kind: ErrorKind::DuplicateDelegate, at: nth_pos(field_keywords(fs), 1) },
        ),
{
}

/// The directives counted do not depend on their order: the counts of a
/// concatenation are the sums of the counts.
pub proof fn lemma_counts_concat(a: Seq<DirV>, b: Seq<DirV>)
    ensures
        count_codes(a + b) == count_codes(a) + count_codes(b),
        count_delegates(a + b) == count_delegates(a) + count_delegates(b),
        count_codes(a + b) == count_codes(b + a),
        count_delegates(a + b) == count_delegates(b + a),
{
    lemma_counts_concat_once(a, b);
    lemma_counts_concat_once(b, a);
}

proof fn lemma_counts_concat_once(a: Seq<DirV>, b: Seq<DirV>)
    ensures
        count_codes(a + b) == count_codes(a) + count_codes(b),
        count_delegates(a + b) == count_delegates(a) + count_delegates(b),
    decreases b.len(),
{
    if b.len() > 0 {
        assert((a + b).drop_last() =~= a + b.drop_last());
        lemma_counts_concat_once(a, b.drop_last());
    } else {
        assert(a + b =~= a);
    }
}

/// Each variant of an analysed enum resolves on its own: its response is what
/// its own declaration gives under the enum's code, whatever its siblings are.
pub proof fn lemma_variants_independent(
    vs: Seq<VariantDecl>,
    inherited: Option<u16>,
    params: Seq<String>,
)
    requires
        resolve_variants(vs, inherited, params) is Ok,
    ensures
        resolve_variants(vs, inherited, params)->Ok_0.len() == vs.len(),
        forall|i: int|
            0 <= i < vs.len() ==> resolve_variant(#[trigger] vs[i], inherited, params) == Ok::<
                RespV,
                AttrError,
            >(resolve_variants(vs, inherited, params)->Ok_0[i]),
    decreases vs.len(),
{
    if vs.len() > 0 {
        lemma_variants_independent(vs.drop_last(), inherited, params);
        assert forall|i: int| 0 <= i < vs.len() implies resolve_variant(
            #[trigger] vs[i],
            inherited,
            params,
        ) == Ok::<RespV, AttrError>(resolve_variants(vs, inherited, params)->Ok_0[i]) by {
            if i < vs.len() - 1 {
                assert(vs.drop_last()[i] == vs[i]);
            }
        }
    }
}

/// Under an enum whose attributes give the code `c`, a variant that says
/// nothing itself answers with `c`, and a variant with its own code `c2`
/// answers with `c2`; each holds whatever the other variants declare.
pub proof fn lemma_inherited_code(d: Declaration, c: u16, i: int, own: UnitAttrsV)
    requires
        d.data is Enum,
        type_attrs(d.attrs@) == Ok::<UnitAttrsV, AttrError>(
            UnitAttrsV { code: Some(c), delegate: None },
        ),
        analyze(d) is Ok,
        0 <= i < d.data->Enum_0@.len(),
        type_attrs(d.data->Enum_0@[i].attrs@) == Ok::<UnitAttrsV, AttrError>(own),
        own.delegate is None,
        fields_delegate(d.data->Enum_0@[i].fields.fields@) == Ok::<Option<nat>, AttrError>(None),
    ensures
        analyze(d)->Ok_0 is Enum,
        own.code is None ==> analyze(d)->Ok_0->Enum_0[i] == RespV::Code(c),
        own.code matches Some(c2) ==> analyze(d)->Ok_0->Enum_0[i] == RespV::Code(c2),
{
    let vs = d.data->Enum_0@;
    lemma_variants_independent(vs, Some(c), d.type_params@);
    assert(resolve_variant(vs[i], Some(c), d.type_params@) is Ok);
}

proof fn lemma_delegate_absent(d: Seq<DirV>)
    ensures
        count_delegates(d) == 0 ==> last_delegate(d) is None,
    decreases d.len(),
{
    if d.len() > 0 {
        lemma_delegate_absent(d.drop_last());
    }
}

/// The one attribute `code = <lit>`, where the literal denotes `c`, gives the
/// directive list that holds `c` alone when `c` is registered, and is rejected
/// as an invalid status code otherwise, reported on the literal.
pub proof fn lemma_code_attr(kw: String, eq: char, lit: String, toks: Vec<Tok>, c: u16)
    requires
        kw@ == code_word(),
        eq == '=',
        digit_led(lit@),
        int_literal_value(lit@) == Some(c),
        toks@ == seq![Tok::Ident(kw), Tok::Punct(eq), Tok::Lit(lit)],
    ensures
        is_registered_status(c) ==> all_directives(seq![toks], false) == Ok::<
            Seq<DirV>,
            AttrError,
        >(seq![DirV::Code(c)]),
        !is_registered_status(c) ==> all_directives(seq![toks], false) == Err::<Seq<DirV>, _>(
            AttrError {
                kind: ErrorKind::InvalidStatusCode,
                at: Some(TokenPos { field: None, attr: 0, tok: 2 }),
            },
        ),
{
    let t = toks@;
    assert(t.subrange(0, 3) =~= t);
    let r = directives_from(t, 0, 3, false);
    assert(directives_from(t, 0, 2, false) == r);
    assert(directives_from(t, 0, 1, false) == r);
    assert(directives_from(t, 0, 0, false) == r);
    assert(attr_directives(t, false) == r);
    let one = seq![toks];
    assert(one.drop_last() =~= Seq::<Vec<Tok>>::empty());
    assert(all_directives(one.drop_last(), false) == Ok::<Seq<DirV>, AttrError>(Seq::empty()));
    assert(one.last() == toks);
    if is_registered_status(c) {
        assert(Seq::<DirV>::empty() + seq![DirV::Code(c)] =~= seq![DirV::Code(c)]);
    }
}

/// A struct written with the one attribute `code = <lit>`, where the literal
/// denotes `c`, and with no marked field, answers with `c` exactly when `c` is
/// a registered status code: the generated responder sets status `c` on the
/// rendered text. Otherwise it is rejected as an invalid status code, reported
/// on the literal.
pub proof fn lemma_struct_code(
    d: Declaration,
    kw: String,
    eq: char,
    lit: String,
    toks: Vec<Tok>,
    c: u16,
)
    requires
        d.data is Struct,
        d.attrs@ == seq![toks],
        kw@ == code_word(),
        eq == '=',
        digit_led(lit@),
        int_literal_value(lit@) == Some(c),
        toks@ == seq![Tok::Ident(kw), Tok::Punct(eq), Tok::Lit(lit)],
        fields_delegate(d.data->Struct_0.fields@) == Ok::<Option<nat>, AttrError>(None),
    ensures
        is_registered_status(c) ==> analyze(d) == Ok::<ItemV, Diagnostic>(
            ItemV::Struct(RespV::Code(c)),
        ),
        !is_registered_status(c) ==> analyze(d) == Err::<ItemV, Diagnostic>(
            Diagnostic {
                kind: ErrorKind::InvalidStatusCode,
                site: Site::Type,
                at: Some(TokenPos { field: None, attr: 0, tok: 2 }),
            },
        ),
{
    lemma_code_attr(kw, eq, lit, toks, c);
    let ty = seq![DirV::Code(c)];
    assert(ty.drop_last() =~= Seq::<DirV>::empty());
    assert(count_codes(ty.drop_last()) == 0);
    assert(count_delegates(ty.drop_last()) == 0);
    assert(count_codes(ty) == 1);
    assert(count_delegates(ty) == 0);
    assert(last_code(ty) == Some(c));
    assert(last_delegate(ty.drop_last()) is None);
    assert(last_delegate(ty) is None);
}

/// The one attribute `delegate = .<k>`, where `k` is written in decimal
/// digits, gives the directive that delegates to position `k`.
pub proof fn lemma_delegate_attr(
    kw: String,
    eq: char,
    dot: char,
    lit: String,
    toks: Vec<Tok>,
    k: nat,
)
    requires
        kw@ == delegate_word(),
        eq == '=',
        dot == '.',
        lit@.len() > 0,
        all_digits(lit@),
        digits_value(lit@) == k,
        k <= usize::MAX,
        toks@ == seq![Tok::Ident(kw), Tok::Punct(eq), Tok::Punct(dot), Tok::Lit(lit)],
    ensures
        all_directives(seq![toks], false) == Ok::<Seq<DirV>, AttrError>(
            seq![DirV::Delegate(seq![SegV::Index(k)])],
        ),
{
    let t = toks@;
    assert(t.subrange(0, 4) =~= t);
    let p = t.subrange(2, 4);
    assert(step_ok(p, 0));
    assert(path_segs(p) =~= seq![SegV::Index(k)]);
    let r = directives_from(t, 0, 4, false);
    assert(directives_from(t, 0, 3, false) == r);
    assert(directives_from(t, 0, 2, false) == r);
    assert(directives_from(t, 0, 1, false) == r);
    assert(directives_from(t, 0, 0, false) == r);
    let one = seq![toks];
    assert(one.drop_last() =~= Seq::<Vec<Tok>>::empty());
    assert(all_directives(one.drop_last(), false) == Ok::<Seq<DirV>, AttrError>(Seq::empty()));
    assert(one.last() == toks);
    assert(Seq::<DirV>::empty() + seq![DirV::Delegate(seq![SegV::Index(k)])] =~= seq![
        DirV::Delegate(seq![SegV::Index(k)]),
    ]);
}

/// A variant that delegates to a position `k` of its positional fields, with
/// no marked field, forwards to field `k` and nothing deeper: the generated
/// arm hands the request to that field's own responder and returns its result.
pub proof fn lemma_variant_delegate(
    v: VariantDecl,
    k: nat,
    inherited: Option<u16>,
    params: Seq<String>,
)
    requires
        all_directives(v.attrs@, false) == Ok::<Seq<DirV>, AttrError>(
            seq![DirV::Delegate(seq![SegV::Index(k)])],
        ),
        fields_delegate(v.fields.fields@) == Ok::<Option<nat>, AttrError>(None),
        v.fields.kind == FieldsKind::Unnamed,
        k < v.fields.fields@.len(),
    ensures
        resolve_variant(v, inherited, params) == Ok::<RespV, AttrError>(
            delegate_to(v.fields, k, Seq::empty(), params),
        ),
{
    let own = seq![DirV::Delegate(seq![SegV::Index(k)])];
    assert(own.drop_last() =~= Seq::<DirV>::empty());
    assert(count_codes(own.drop_last()) == 0);
    assert(count_delegates(own.drop_last()) == 0);
    assert(count_codes(own) == 0);
    assert(count_delegates(own) == 1);
    assert(last_delegate(own) == Some(seq![SegV::Index(k)]));
    assert(last_code(own.drop_last()) is None);
    assert(last_code(own) is None);
    assert(seq![SegV::Index(k)].drop_first() =~= Seq::<SegV>::empty());
}

} // verus!

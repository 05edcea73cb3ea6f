use vstd::prelude::*;
use vstd::string::*;
use crate::attrs::{
    bare, delegate_word, field_keywords, field_keywords_of, fields_delegate, keyword_positions,
    keyword_positions_of, nth_of, nth_pos, path_from,
    segs_view, type_attrs, AttrError, CodeArg, ErrorKind, Field, FieldType, Fields, FieldsAttrs,
    FieldsKind, Seg, SegV, Tok, TokenPos, TypeAttrs, UnitAttrsV,
};

verus! {

/// An enum variant as declared: its name, its attributes and its fields.
pub struct VariantDecl {
    pub ident: String,
    pub attrs: Vec<Vec<Tok>>,
    pub fields: Fields,
}

/// The shape of a declaration.
pub enum DeclData {
    Struct(Fields),
    Enum(Vec<VariantDecl>),
    Union(Fields),
}

/// A type declaration as the derive receives it: the names of its type
/// parameters, the argument lists of its own `response(...)` attributes, and
/// its shape.
pub struct Declaration {
    pub ident: String,
    pub type_params: Vec<String>,
    pub attrs: Vec<Vec<Tok>>,
    pub data: DeclData,
}

/// The field that a unit forwards to: its position in the unit's fields, the
/// further path into it, and whether the generated impl must require the
/// field's type to be a responder itself.
pub struct Delegate {
    pub field: usize,
    pub rest: Vec<Seg>,
    pub bound: bool,
}

/// What one unit does when it is turned into a response.
pub enum Response {
    Code(CodeArg),
    Delegate(Delegate),
}

pub enum RespV {
    Code(u16),
    Delegate { field: nat, rest: Seq<SegV>, bound: bool },
}

impl View for Response {
    type V = RespV;

    open spec fn view(&self) -> RespV {
        match self {
            Response::Code(c) => RespV::Code(c.code),
            Response::Delegate(d) => RespV::Delegate {
                field: d.field as nat,
                rest: segs_view(d.rest@),
                bound: d.bound,
            },
        }
    }
}

pub struct Variant {
    pub response: Response,
}

pub struct ItemDataEnum {
    pub variants: Vec<Variant>,
}

pub struct ItemDataStruct {
    pub response: Response,
}

pub struct ItemDataUnion {
    pub code: CodeArg,
}

pub enum ItemData {
    Enum(ItemDataEnum),
    Struct(ItemDataStruct),
    Union(ItemDataUnion),
}

/// A declaration that passed analysis: one resolved response for each unit.
pub struct Item {
    pub data: ItemData,
}

pub enum ItemV {
    Enum(Seq<RespV>),
    Struct(RespV),
    Union(u16),
}

pub open spec fn variants_view(v: Seq<Variant>) -> Seq<RespV> {
    v.map_values(|x: Variant| x.response@)
}

impl View for Item {
    type V = ItemV;

    open spec fn view(&self) -> ItemV {
        match self.data {
            ItemData::Enum(e) => ItemV::Enum(variants_view(e.variants@)),
            ItemData::Struct(s) => ItemV::Struct(s.response@),
            ItemData::Union(u) => ItemV::Union(u.code.code),
        }
    }
}

/// Where a rejection is reported: on the type, or on one of its variants.
#[derive(Clone, Copy, Debug, PartialEq, Eq, Structural)]
pub enum Site {
    Type,
    Variant(usize),
}

#[derive(Clone, Copy, Debug, PartialEq, Eq, Structural)]
/// A rejection: what is wrong, the type or variant it concerns, and the token
/// of its attributes to blame, where there is one.
pub struct Diagnostic {
    pub kind: ErrorKind,
    pub site: Site,
    pub at: Option<TokenPos>,
}

/// Some identifier of the type is one of the declaration's type parameters.
pub open spec fn mentions_param(ty: FieldType, params: Seq<String>) -> bool {
    exists|j: int, k: int|
        0 <= j < ty.idents@.len() && 0 <= k < params.len() && #[trigger] ty.idents@[j]@
            == #[trigger] params[k]@
}

/// The position of the first field named `n`.
pub open spec fn find_named(fs: Seq<Field>, n: Seq<char>) -> Option<nat>
    decreases fs.len(),
{
    if fs.len() == 0 {
        None
    } else {
        match find_named(fs.drop_last(), n) {
            Some(k) => Some(k),
            None => if fs.last().ident matches Some(s) && s@ == n {
                Some((fs.len() - 1) as nat)
            } else {
                None
            },
        }
    }
}

/// The field that the first step of a delegate path names: a named field by
/// its name, a positional field by its position.
pub open spec fn field_index(fs: Fields, s: SegV) -> Option<nat> {
    match s {
        SegV::Name(n) => if fs.kind == FieldsKind::Named {
            find_named(fs.fields@, n)
        } else {
            None
        },
        SegV::Index(k) => if fs.kind == FieldsKind::Unnamed && k < fs.fields@.len() {
            Some(k)
        } else {
            None
        },
    }
}

pub open spec fn delegate_to(fs: Fields, k: nat, rest: Seq<SegV>, params: Seq<String>) -> RespV {
    RespV::Delegate {
        field: k,
        rest,
        bound: rest.len() == 0 && mentions_param(fs.fields@[k as int].ty, params),
    }
}

pub open spec fn opt_nat(o: Option<usize>) -> Option<nat> {
    match o {
        Some(k) => Some(k as nat),
        None => None,
    }
}

/// How one unit resolves, from its own code and delegate path, the field that
/// carries the delegate marker and the code it may inherit. A code beside a
/// delegate is a conflict, a path beside a marker a repetition; an explicit
/// code or delegate wins over the inherited code.
pub open spec fn resolve_unit(
    own: UnitAttrsV,
    mark: Option<nat>,
    inherited: Option<u16>,
    fs: Fields,
    params: Seq<String>,
) -> Result<RespV, ErrorKind> {
    if own.code is Some && (own.delegate is Some || mark is Some) {
        Err(ErrorKind::CodeAndDelegate)
    } else if own.delegate is Some && mark is Some {
        Err(ErrorKind::DuplicateDelegate)
    } else if own.code is Some {
        Ok(RespV::Code(own.code->Some_0))
    } else if mark is Some {
        Ok(delegate_to(fs, mark->Some_0, Seq::empty(), params))
    } else if own.delegate is Some {
        let p = own.delegate->Some_0;
        if p.len() == 0 {
            Err(ErrorKind::UnknownField)
        } else {
            match field_index(fs, p[0]) {
                None => Err(ErrorKind::UnknownField),
                Some(k) => Ok(delegate_to(fs, k, p.drop_first(), params)),
            }
        }
    } else {
        match inherited {
            Some(c) => Ok(RespV::Code(c)),
            None => Err(ErrorKind::Missing),
        }
    }
}

/// Where a unit's rejection is reported: a delegate marker that conflicts with
/// the unit's code or repeats its delegate path, on the first marker.
pub open spec fn unit_error(k: ErrorKind, fs: Fields) -> AttrError {
    if k == ErrorKind::CodeAndDelegate || k == ErrorKind::DuplicateDelegate {
        AttrError { kind: k, at: nth_pos(field_keywords(fs.fields@), 0) }
    } else {
        bare(k)
    }
}

fn unit_error_of(k: ErrorKind, fields: &Fields) -> (r: AttrError)
    ensures
        r == unit_error(k, *fields),
{
    if k == ErrorKind::CodeAndDelegate || k == ErrorKind::DuplicateDelegate {
        let kp = field_keywords_of(&fields.fields);
        AttrError { kind: k, at: nth_of(&kp, 0) }
    } else {
        AttrError { kind: k, at: None }
    }
}

pub open spec fn resp_result_view<E>(r: Result<Response, E>) -> Result<RespV, E> {
    match r {
        Ok(x) => Ok(x@),
        Err(e) => Err(e),
    }
}


fn find_field(fields: &Fields, s: &Seg) -> (r: Option<usize>)
    ensures
        r is Some <==> field_index(*fields, s@) is Some,
        r matches Some(k) ==> field_index(*fields, s@) == Some(k as nat) && k
            < fields.fields@.len(),
{
    let fs = &fields.fields;
    match s {
        Seg::Index(k) => {
            if fields.kind == FieldsKind::Unnamed && *k < fs.len() {
                Some(*k)
            } else {
                None
            }
        },
        Seg::Name(n) => {
            if fields.kind != FieldsKind::Named {
                return None;
            }
            let mut i: usize = 0;
            assert(fs@.subrange(0, 0) =~= Seq::<Field>::empty());
            while i < fs.len()
                invariant
                    i <= fs@.len(),
                    fs@ == fields.fields@,
                    fields.kind == FieldsKind::Named,
                    s@ == SegV::Name(n@),
                    find_named(fs@.subrange(0, i as int), n@) is None,
                decreases fs@.len() - i,
            {
                let ghost pre = fs@.subrange(0, i + 1);
                assert(pre.drop_last() =~= fs@.subrange(0, i as int));
                let hit = match &fs[i].ident {
                    Some(m) => *m == *n,
                    None => false,
                };
                if hit {
                    proof {
                        assert(pre.last() == fs@[i as int]);
                        assert(find_named(pre, n@) == Some(i as nat));
                        lemma_find_named_extends(fs@, n@, i + 1);
                    }
                    return Some(i);
                }
                i += 1;
            }
            assert(fs@.subrange(0, i as int) =~= fs@);
            None
        },
    }
}

proof fn lemma_find_named_extends(fs: Seq<Field>, n: Seq<char>, k: int)
    requires
        0 <= k <= fs.len(),
        find_named(fs.subrange(0, k), n) is Some,
    ensures
        find_named(fs, n) == find_named(fs.subrange(0, k), n),
    decreases fs.len(),
{
    if k < fs.len() {
        assert(fs.drop_last().subrange(0, k) =~= fs.subrange(0, k));
        lemma_find_named_extends(fs.drop_last(), n, k);
    } else {
        assert(fs.subrange(0, k) =~= fs);
    }
}

fn mentions(ty: &FieldType, params: &Vec<String>) -> (r: bool)
    ensures
        r == mentions_param(*ty, params@),
{
    let mut j: usize = 0;
    while j < ty.idents.len()
        invariant
            j <= ty.idents@.len(),
            forall|a: int, b: int|
                0 <= a < j && 0 <= b < params@.len() ==> #[trigger] ty.idents@[a]@
                    != #[trigger] params@[b]@,
        decreases ty.idents@.len() - j,
    {
        let mut k: usize = 0;
        while k < params.len()
            invariant
                j < ty.idents@.len(),
                k <= params@.len(),
                forall|a: int, b: int|
                    0 <= a < j && 0 <= b < params@.len() ==> #[trigger] ty.idents@[a]@
                        != #[trigger] params@[b]@,
                forall|b: int| 0 <= b < k ==> ty.idents@[j as int]@ != #[trigger] params@[b]@,
            decreases params@.len() - k,
        {
            if ty.idents[j] == params[k] {
                return true;
            }
            k += 1;
        }
        j += 1;
    }
    false
}

fn delegate_response(fields: &Fields, k: usize, rest: Vec<Seg>, params: &Vec<String>) -> (r:
    Response)
    requires
        k < fields.fields@.len(),
    ensures
        r@ == delegate_to(*fields, k as nat, segs_view(rest@), params@),
{
    let bound = rest.len() == 0 && mentions(&fields.fields[k].ty, params);
    Response::Delegate(Delegate { field: k, rest, bound })
}

pub open spec fn digit_chars() -> Seq<char> {
    seq!['0', '1', '2', '3', '4', '5', '6', '7', '8', '9']
}

/// The decimal digits of `n`, the most significant first.
pub open spec fn decimal(n: nat) -> Seq<char>
    decreases n,
{
    if n < 10 {
        digit_chars().subrange(n as int, n as int + 1)
    } else {
        decimal(n / 10) + digit_chars().subrange((n % 10) as int, (n % 10) as int + 1)
    }
}

fn decimal_string(n: usize) -> (r: String)
    ensures
        r@ == decimal(n as nat),
    decreases n,
{
    let digits = "0123456789";
    proof {
        reveal_strlit("0123456789");
        assert(digits@ =~= digit_chars());
    }
    let d = n % 10;
    let last = digits.substring_char(d, d + 1);
    if n < 10 {
        last.to_owned()
    } else {
        let mut s = decimal_string(n / 10);
        s.append(last);
        s
    }
}

/// The name that a pattern over all of a unit's fields binds field `k` to:
/// the field's own name, or `_k` for a positional field.
pub open spec fn binding_name(f: Field, k: nat) -> Seq<char> {
    match f.ident {
        Some(s) => s@,
        None => seq!['_'] + decimal(k),
    }
}

/// The names that a pattern over all the fields binds them to, in order.
pub fn binding_names(fields: &Fields) -> (r: Vec<String>)
    ensures
        r@.len() == fields.fields@.len(),
        forall|k: int|
            0 <= k < r@.len() ==> #[trigger] r@[k]@ == binding_name(fields.fields@[k], k as nat),
{
    let fs = &fields.fields;
    let mut out: Vec<String> = Vec::new();
    let mut i: usize = 0;
    while i < fs.len()
        invariant
            i <= fs@.len(),
            fs@ == fields.fields@,
            out@.len() == i,
            forall|k: int| 0 <= k < i ==> #[trigger] out@[k]@ == binding_name(fs@[k], k as nat),
        decreases fs@.len() - i,
    {
        let name = match &fs[i].ident {
            Some(n) => n.clone(),
            None => {
                let mut b = "_".to_owned();
                proof {
                    reveal_strlit("_");
                }
                let digits = decimal_string(i);
                b.append(digits.as_str());
                b
            },
        };
        out.push(name);
        i += 1;
    }
    out
}

/// Resolves one unit.
fn resolve(
    own: &TypeAttrs,
    mark: Option<usize>,
    inherited: Option<u16>,
    fields: &Fields,
    params: &Vec<String>,
) -> (r: Result<Response, ErrorKind>)
    requires
        mark matches Some(k) ==> k < fields.fields@.len(),
    ensures
        resp_result_view(r) == resolve_unit(own@, opt_nat(mark), inherited, *fields, params@),
{
    if own.code.is_some() && (own.delegate.is_some() || mark.is_some()) {
        return Err(ErrorKind::CodeAndDelegate);
    }
    if own.delegate.is_some() && mark.is_some() {
        return Err(ErrorKind::DuplicateDelegate);
    }
    if let Some(c) = own.code {
        return Ok(Response::Code(c));
    }
    if let Some(k) = mark {
        let r = delegate_response(fields, k, Vec::new(), params);
        assert(segs_view(Seq::<Seg>::empty()) =~= Seq::<SegV>::empty());
        return Ok(r);
    }
    match &own.delegate {
        Some(p) => {
            if p.len() == 0 {
                return Err(ErrorKind::UnknownField);
            }
            match find_field(fields, &p[0]) {
                None => Err(ErrorKind::UnknownField),
                Some(k) => {
                    let rest = path_from(p, 1);
                    assert(segs_view(p@).subrange(1, p@.len() as int) =~= segs_view(
                        p@,
                    ).drop_first());
                    Ok(delegate_response(fields, k, rest, params))
                },
            }
        },
        None => match inherited {
            Some(c) => Ok(Response::Code(CodeArg { code: c })),
            None => Err(ErrorKind::Missing),
        },
    }
}

/// How one variant resolves under the code that the enum gives its variants.
pub open spec fn resolve_variant(v: VariantDecl, inherited: Option<u16>, params: Seq<String>) -> Result<
    RespV,
    AttrError,
> {
    match type_attrs(v.attrs@) {
        Err(e) => Err(e),
        Ok(own) => match fields_delegate(v.fields.fields@) {
            Err(e) => Err(e),
            Ok(m) => match resolve_unit(own, m, inherited, v.fields, params) {
                Ok(r) => Ok(r),
                Err(k) => Err(unit_error(k, v.fields)),
            },
        },
    }
}


/// The variants resolved in order; the first that is rejected is reported on
/// its own position.
pub open spec fn resolve_variants(
    vs: Seq<VariantDecl>,
    inherited: Option<u16>,
    params: Seq<String>,
) -> Result<Seq<RespV>, Diagnostic>
    decreases vs.len(),
{
    if vs.len() == 0 {
        Ok(Seq::empty())
    } else {
        match resolve_variants(vs.drop_last(), inherited, params) {
            Err(e) => Err(e),
            Ok(s) => match resolve_variant(vs.last(), inherited, params) {
                Err(e) => Err(
                    Diagnostic { kind: e.kind, site: Site::Variant((vs.len() - 1) as usize), at: e.at },
                ),
                Ok(r) => Ok(s.push(r)),
            },
        }
    }
}

pub open spec fn at_type(e: AttrError) -> Diagnostic {
    Diagnostic { kind: e.kind, site: Site::Type, at: e.at }
}

/// The analysis of a whole declaration. A struct resolves as one unit; a union
/// needs its own code, which is checked first, and must not delegate (its
/// attributes cannot give a code and a path together); an enum must not
/// delegate at the type, and the code it may give is taken over by each variant without a
/// code or delegate of its own.
pub open spec fn analyze(d: Declaration) -> Result<ItemV, Diagnostic> {
    let params = d.type_params@;
    match type_attrs(d.attrs@) {
        Err(e) => Err(at_type(e)),
        Ok(ty) => match d.data {
            DeclData::Struct(fs) => match fields_delegate(fs.fields@) {
                Err(e) => Err(at_type(e)),
                Ok(m) => match resolve_unit(ty, m, None, fs, params) {
                    Err(e) => Err(at_type(unit_error(e, fs))),
                    Ok(r) => Ok(ItemV::Struct(r)),
                },
            },
            DeclData::Union(fs) => match ty.code {
                None => Err(at_type(bare(ErrorKind::Missing))),
                Some(c) => match fields_delegate(fs.fields@) {
                    Err(e) => Err(at_type(e)),
                    Ok(m) => if m is Some {
                        Err(
                            at_type(
                                AttrError {
                                    kind: ErrorKind::DelegateOnUnion,
                                    at: nth_pos(field_keywords(fs.fields@), 0),
                                },
                            ),
                        )
                    } else {
                        Ok(ItemV::Union(c))
                    },
                },
            },
            DeclData::Enum(vs) => if ty.delegate is Some {
                Err(
                    at_type(
                        AttrError {
                            kind: ErrorKind::DelegateOnEnum,
                            at: nth_pos(keyword_positions(d.attrs@, delegate_word()), 0),
                        },
                    ),
                )
            } else {
                as_enum(resolve_variants(vs@, ty.code, params))
            },
        },
    }
}


pub open spec fn as_enum(r: Result<Seq<RespV>, Diagnostic>) -> Result<ItemV, Diagnostic> {
    match r {
        Err(e) => Err(e),
        Ok(s) => Ok(ItemV::Enum(s)),
    }
}

pub open spec fn item_result_view(r: Result<Item, Diagnostic>) -> Result<ItemV, Diagnostic> {
    match r {
        Ok(i) => Ok(i@),
        Err(e) => Err(e),
    }
}

pub(crate) proof fn lemma_resolve_variants_err(
    vs: Seq<VariantDecl>,
    k: int,
    inherited: Option<u16>,
    params: Seq<String>,
)
    requires
        0 <= k <= vs.len(),
        resolve_variants(vs.subrange(0, k), inherited, params) is Err,
    ensures
        resolve_variants(vs, inherited, params) == resolve_variants(
            vs.subrange(0, k),
            inherited,
            params,
        ),
    decreases vs.len(),
{
    if k < vs.len() {
        assert(vs.drop_last().subrange(0, k) =~= vs.subrange(0, k));
        lemma_resolve_variants_err(vs.drop_last(), k, inherited, params);
    } else {
        assert(vs.subrange(0, k) =~= vs);
    }
}

fn resolve_variant_decl(v: &VariantDecl, inherited: Option<u16>, params: &Vec<String>) -> (r:
    Result<Response, AttrError>)
    ensures
        resp_result_view(r) == resolve_variant(*v, inherited, params@),
{
    let own = match TypeAttrs::new(&v.attrs) {
        Ok(t) => t,
        Err(e) => {
            return Err(e);
        },
    };
    let marks = match FieldsAttrs::new(&v.fields) {
        Ok(f) => f,
        Err(e) => {
            return Err(e);
        },
    };
    match resolve(&own, marks.delegate, inherited, &v.fields, params) {
        Ok(r) => Ok(r),
        Err(k) => Err(unit_error_of(k, &v.fields)),
    }
}

impl Item {
    /// Analyses a declaration: each unit gets its status code or its delegate
    /// field, or the declaration is rejected with the first problem found.
    pub fn parse(d: &Declaration) -> (r: Result<Item, Diagnostic>)
        ensures
            item_result_view(r) == analyze(*d),
    {
        let ty = match TypeAttrs::new(&d.attrs) {
            Ok(t) => t,
            Err(e) => {
                return Err(Diagnostic { kind: e.kind, site: Site::Type, at: e.at });
            },
        };
        match &d.data {
            DeclData::Struct(fs) => {
                let m = match FieldsAttrs::new(fs) {
                    Ok(f) => f,
                    Err(e) => {
                        return Err(Diagnostic { kind: e.kind, site: Site::Type, at: e.at });
                    },
                };
                match resolve(&ty, m.delegate, None, fs, &d.type_params) {
                    Ok(response) => Ok(Item { data: ItemData::Struct(ItemDataStruct { response }) }),
                    Err(k) => {
                        let e = unit_error_of(k, fs);
                        Err(Diagnostic { kind: e.kind, site: Site::Type, at: e.at })
                    },
                }
            },
            DeclData::Union(fs) => {
                let code = match ty.code {
                    Some(c) => c,
                    None => {
                        return Err(Diagnostic { kind: ErrorKind::Missing, site: Site::Type, at: None });
                    },
                };
                let m = match FieldsAttrs::new(fs) {
                    Ok(f) => f,
                    Err(e) => {
                        return Err(Diagnostic { kind: e.kind, site: Site::Type, at: e.at });
                    },
                };
                if m.delegate.is_some() {
                    let kp = field_keywords_of(&fs.fields);
                    return Err(
                        Diagnostic {
                            kind: ErrorKind::DelegateOnUnion,
                            site: Site::Type,
                            at: nth_of(&kp, 0),
                        },
                    );
                }
                Ok(Item { data: ItemData::Union(ItemDataUnion { code }) })
            },
            DeclData::Enum(vs) => {
                if ty.delegate.is_some() {
                    let kp = keyword_positions_of(&d.attrs, "delegate");
                    proof {
                        reveal_strlit("delegate");
                        assert("delegate"@ =~= delegate_word());
                    }
                    return Err(
                        Diagnostic {
                            kind: ErrorKind::DelegateOnEnum,
                            site: Site::Type,
                            at: nth_of(&kp, 0),
                        },
                    );
                }
                let lc = match ty.code {
                    Some(c) => Some(c.code),
                    None => None,
                };
                let ghost inh = ty@.code;
                let mut variants: Vec<Variant> = Vec::new();
                let mut i: usize = 0;
                assert(vs@.subrange(0, 0) =~= Seq::<VariantDecl>::empty());
                assert(variants_view(variants@) =~= Seq::<RespV>::empty());
                assert(analyze(*d) == as_enum(resolve_variants(vs@, inh, d.type_params@)));
                while i < vs.len()
                    invariant
                        i <= vs@.len(),
                        analyze(*d) == as_enum(resolve_variants(vs@, inh, d.type_params@)),
                        lc == inh,
                        resolve_variants(vs@.subrange(0, i as int), inh, d.type_params@) == Ok::<
                            Seq<RespV>,
                            Diagnostic,
                        >(variants_view(variants@)),
                    decreases vs@.len() - i,
                {

                    let ghost pre = vs@.subrange(0, i + 1);
                    assert(pre.drop_last() =~= vs@.subrange(0, i as int));
                    assert(pre.last() == vs@[i as int]);
                    match resolve_variant_decl(&vs[i], lc, &d.type_params) {
                        Err(k) => {
                            proof {
                                assert(resolve_variants(pre, inh, d.type_params@) == Err::<
                                    Seq<RespV>,
                                    Diagnostic,
                                >(Diagnostic { kind: k.kind, site: Site::Variant(i), at: k.at }));
                                lemma_resolve_variants_err(vs@, i + 1, inh, d.type_params@);
                            }
                            return Err(Diagnostic { kind: k.kind, site: Site::Variant(i), at: k.at });
                        },
                        Ok(response) => {
                            let ghost before = variants_view(variants@);
                            variants.push(Variant { response });
                            assert(variants_view(variants@) =~= before.push(response@));
                        },
                    }
                    i += 1;
                }
                assert(vs@.subrange(0, i as int) =~= vs@);
                Ok(Item { data: ItemData::Enum(ItemDataEnum { variants }) })
            },
        }
    }
}

} // verus!

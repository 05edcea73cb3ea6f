use vstd::prelude::*;
use vstd::string::*;
use crate::status::{digit_led, int_literal_value, is_registered_status, literal_u16, status_is_registered};

verus! {

/// One token of the argument list of a `response(...)` attribute.
pub enum Tok {
    Ident(String),
    Punct(char),
    Lit(String),
    Other,
}

/// One step of a delegate path: a field name or a field position.
pub enum Seg {
    Name(String),
    Index(usize),
}

pub enum SegV {
    Name(Seq<char>),
    Index(nat),
}

impl View for Seg {
    type V = SegV;

    open spec fn view(&self) -> SegV {
        match self {
            Seg::Name(s) => SegV::Name(s@),
            Seg::Index(i) => SegV::Index(*i as nat),
        }
    }
}

/// A directive read from an attribute: `code = <lit>`, `delegate = .<path>`,
/// or the bare field marker `delegate`.
pub enum Directive {
    Code(u16),
    Delegate(Vec<Seg>),
    Marker,
}

pub enum DirV {
    Code(u16),
    Delegate(Seq<SegV>),
    Marker,
}

pub open spec fn segs_view(v: Seq<Seg>) -> Seq<SegV> {
    v.map_values(|s: Seg| s@)
}

impl View for Directive {
    type V = DirV;

    open spec fn view(&self) -> DirV {
        match self {
            Directive::Code(c) => DirV::Code(*c),
            Directive::Delegate(p) => DirV::Delegate(segs_view(p@)),
            Directive::Marker => DirV::Marker,
        }
    }
}

pub open spec fn dirs_view(v: Seq<Directive>) -> Seq<DirV> {
    v.map_values(|d: Directive| d@)
}

/// Why a declaration was rejected.
#[derive(Clone, Copy, Debug, PartialEq, Eq, Structural)]
pub enum ErrorKind {
    /// A directive starts with a keyword other than `code` or `delegate`.
    UnknownDirective,
    /// A directive does not have the shape that its keyword asks for.
    Malformed,
    /// The argument of `code` is no integer literal that fits a `u16`.
    BadLiteral,
    /// The argument of `code` is not a registered status code.
    InvalidStatusCode,
    DuplicateCode,
    DuplicateDelegate,
    CodeAndDelegate,
    /// Neither a code nor a delegate applies to the unit.
    Missing,
    DelegateOnEnum,
    DelegateOnUnion,
    /// The first step of a delegate path names no field of the unit.
    UnknownField,
}

/// Where a token stands among a unit's attributes: the field whose attributes
/// hold it (none for the unit's own), the `response(...)` attribute, and the
/// token within its argument list.
#[derive(Clone, Copy, Debug, PartialEq, Eq, Structural)]
pub struct TokenPos {
    pub field: Option<usize>,
    pub attr: usize,
    pub tok: usize,
}

/// A rejection of a unit's attributes, with the token that it is reported on
/// where one token is to blame.
#[derive(Clone, Copy, Debug, PartialEq, Eq, Structural)]
pub struct AttrError {
    pub kind: ErrorKind,
    pub at: Option<TokenPos>,
}

pub open spec fn bare(k: ErrorKind) -> AttrError {
    AttrError { kind: k, at: None }
}

/// The same rejection, found among the attributes of field `k`.
pub open spec fn in_field(e: AttrError, k: usize) -> AttrError {
    match e.at {
        Some(p) => AttrError { kind: e.kind, at: Some(TokenPos { field: Some(k), attr: p.attr, tok: p.tok }) },
        None => e,
    }
}

fn at_field(e: AttrError, k: usize) -> (r: AttrError)
    ensures
        r == in_field(e, k),
{
    match e.at {
        Some(p) => AttrError { kind: e.kind, at: Some(TokenPos { field: Some(k), attr: p.attr, tok: p.tok }) },
        None => e,
    }
}

pub open spec fn code_word() -> Seq<char> {
    seq!['c', 'o', 'd', 'e']
}

pub open spec fn delegate_word() -> Seq<char> {
    seq!['d', 'e', 'l', 'e', 'g', 'a', 't', 'e']
}

pub open spec fn is_word(t: Tok, w: Seq<char>) -> bool {
    match t {
        Tok::Ident(s) => s@ == w,
        _ => false,
    }
}

pub open spec fn is_punct(t: Tok, c: char) -> bool {
    match t {
        Tok::Punct(d) => d == c,
        _ => false,
    }
}

pub open spec fn is_digit(c: char) -> bool {
    '0' <= c <= '9'
}

pub open spec fn all_digits(s: Seq<char>) -> bool {
    forall|i: int| 0 <= i < s.len() ==> is_digit(#[trigger] s[i])
}

pub open spec fn digit_value(c: char) -> nat {
    if is_digit(c) {
        (c as u32 - '0' as u32) as nat
    } else {
        0
    }
}

/// The number that a string of decimal digits denotes.
pub open spec fn digits_value(s: Seq<char>) -> nat
    decreases s.len(),
{
    if s.len() == 0 {
        0
    } else {
        digits_value(s.drop_last()) * 10 + digit_value(s.last())
    }
}

/// A token as a step of a delegate path: an identifier names a field, a literal
/// of decimal digits gives a position.
pub open spec fn seg_of(t: Tok) -> Option<SegV> {
    match t {
        Tok::Ident(s) => Some(SegV::Name(s@)),
        Tok::Lit(s) => if s@.len() > 0 && all_digits(s@) && digits_value(s@) <= usize::MAX {
            Some(SegV::Index(digits_value(s@)))
        } else {
            None
        },
        _ => None,
    }
}

/// The `k`-th step `.seg` of a path written as tokens.
pub open spec fn step_ok(p: Seq<Tok>, k: int) -> bool {
    is_punct(p[2 * k], '.') && seg_of(p[2 * k + 1]) is Some
}

/// Tokens `. seg . seg ...`, with at least one step.
pub open spec fn is_path(p: Seq<Tok>) -> bool {
    &&& p.len() >= 2
    &&& p.len() % 2 == 0
    &&& forall|k: int| 0 <= k < p.len() / 2 ==> #[trigger] step_ok(p, k)
}

pub open spec fn path_segs(p: Seq<Tok>) -> Seq<SegV> {
    Seq::new((p.len() / 2) as nat, |k: int| seg_of(p[2 * k + 1])->Some_0)
}

/// The status code that `code = <lit>` gives once the literal has been read:
/// `value` is the literal's value, `None` when it is no `u16` integer literal.
pub open spec fn code_of(value: Option<u16>) -> Result<u16, ErrorKind> {
    match value {
        None => Err(ErrorKind::BadLiteral),
        Some(c) => if is_registered_status(c) {
            Ok(c)
        } else {
            Err(ErrorKind::InvalidStatusCode)
        },
    }
}

/// The directive `code = <lit>` for the literal's text: one that does not
/// begin with a digit is no integer literal.
pub open spec fn code_directive(text: Seq<char>) -> Result<DirV, ErrorKind> {
    if !digit_led(text) {
        Err(ErrorKind::BadLiteral)
    } else {
        match code_of(int_literal_value(text)) {
            Ok(c) => Ok(DirV::Code(c)),
            Err(e) => Err(e),
        }
    }
}

fn starts_with_digit(text: &String) -> (r: bool)
    ensures
        r == digit_led(text@),
{
    let s = text.as_str();
    if s.unicode_len() == 0 {
        return false;
    }
    let c = s.get_char(0);
    '0' <= c && c <= '9'
}

/// Checks the value of a `code` literal: a registered status code is kept,
/// anything else is rejected.
pub fn code_from_value(value: Option<u16>) -> (r: Result<u16, ErrorKind>)
    ensures
        r == code_of(value),
{
    match value {
        None => Err(ErrorKind::BadLiteral),
        Some(c) => if status_is_registered(c) {
            Ok(c)
        } else {
            Err(ErrorKind::InvalidStatusCode)
        },
    }
}

/// One comma-separated directive. At field level only the bare marker
/// `delegate` is a directive; at type or variant level `code = <lit>` and
/// `delegate = .<path>` are.
pub open spec fn spec_chunk(c: Seq<Tok>, field_level: bool) -> Result<DirV, ErrorKind> {
    if c.len() == 0 {
        Err(ErrorKind::Malformed)
    } else if is_word(c[0], code_word()) && !field_level {
        if c.len() == 3 && is_punct(c[1], '=') && c[2] is Lit {
            code_directive(c[2]->Lit_0@)
        } else {
            Err(ErrorKind::Malformed)
        }
    } else if is_word(c[0], delegate_word()) {
        if field_level {
            if c.len() == 1 {
                Ok(DirV::Marker)
            } else {
                Err(ErrorKind::Malformed)
            }
        } else if c.len() >= 2 && is_punct(c[1], '=') && is_path(c.subrange(2, c.len() as int)) {
            Ok(DirV::Delegate(path_segs(c.subrange(2, c.len() as int))))
        } else {
            Err(ErrorKind::Malformed)
        }
    } else {
        Err(ErrorKind::UnknownDirective)
    }
}

/// Where in a directive a rejection is reported: on the literal of
/// `code = <lit>`, else on the directive's first token.
pub open spec fn chunk_err_at(c: Seq<Tok>, field_level: bool) -> int {
    if !field_level && c.len() == 3 && is_word(c[0], code_word()) && is_punct(c[1], '=')
        && c[2] is Lit {
        2
    } else {
        0
    }
}

/// The directive `c`, which begins at position `lo` of its attribute, with
/// the position of the token that a rejection is reported on.
pub open spec fn chunk_result(c: Seq<Tok>, lo: int, field_level: bool) -> Result<
    DirV,
    (ErrorKind, usize),
> {
    match spec_chunk(c, field_level) {
        Ok(d) => Ok(d),
        Err(e) => Err((e, (lo + chunk_err_at(c, field_level)) as usize)),
    }
}

/// The directives of `t` from position `i` on, where the current directive
/// began at `start`: directives are separated by commas, and the first one
/// that is rejected decides the result.
pub open spec fn directives_from(t: Seq<Tok>, start: int, i: int, field_level: bool) -> Result<
    Seq<DirV>,
    (ErrorKind, usize),
>
    decreases t.len() - i,
{
    if i >= t.len() {
        match chunk_result(t.subrange(start, t.len() as int), start, field_level) {
            Ok(d) => Ok(seq![d]),
            Err(e) => Err(e),
        }
    } else if is_punct(t[i], ',') {
        match chunk_result(t.subrange(start, i), start, field_level) {
            Err(e) => Err(e),
            Ok(d) => match directives_from(t, i + 1, i + 1, field_level) {
                Ok(r) => Ok(seq![d] + r),
                Err(e) => Err(e),
            },
        }
    } else {
        directives_from(t, start, i + 1, field_level)
    }
}

/// The directives of one attribute's argument list.
pub open spec fn attr_directives(t: Seq<Tok>, field_level: bool) -> Result<
    Seq<DirV>,
    (ErrorKind, usize),
> {
    directives_from(t, 0, 0, field_level)
}

/// The directives of a list of attributes, in order; the first rejected
/// attribute decides the result, reported on its token.
pub open spec fn all_directives(attrs: Seq<Vec<Tok>>, field_level: bool) -> Result<
    Seq<DirV>,
    AttrError,
>
    decreases attrs.len(),
{
    if attrs.len() == 0 {
        Ok(Seq::empty())
    } else {
        match all_directives(attrs.drop_last(), field_level) {
            Err(e) => Err(e),
            Ok(s) => match attr_directives(attrs.last()@, field_level) {
                Err((k, t)) => Err(
                    AttrError {
                        kind: k,
                        at: Some(TokenPos { field: None, attr: (attrs.len() - 1) as usize, tok: t }),
                    },
                ),
                Ok(d) => Ok(s + d),
            },
        }
    }
}

pub open spec fn prefixed(s: Seq<DirV>, r: Result<Seq<DirV>, (ErrorKind, usize)>) -> Result<
    Seq<DirV>,
    (ErrorKind, usize),
> {
    match r {
        Ok(x) => Ok(s + x),
        Err(e) => Err(e),
    }
}

fn ident_is(t: &Tok, w: &str) -> (r: bool)
    ensures
        r == is_word(*t, w@),
{
    match t {
        Tok::Ident(s) => *s == w.to_owned(),
        _ => false,
    }
}

fn punct_is(t: &Tok, c: char) -> (r: bool)
    ensures
        r == is_punct(*t, c),
{
    match t {
        Tok::Punct(d) => *d == c,
        _ => false,
    }
}

proof fn lemma_digits_prefix(s: Seq<char>, k: int)
    requires
        0 <= k <= s.len(),
    ensures
        digits_value(s.subrange(0, k)) <= digits_value(s),
    decreases s.len(),
{
    if k < s.len() {
        lemma_digits_prefix(s.drop_last(), k);
        assert(s.drop_last().subrange(0, k) =~= s.subrange(0, k));
    } else {
        assert(s.subrange(0, k) =~= s);
    }
}

/// Reads a tuple position written in decimal digits.
fn decimal_index(s: &String) -> (r: Option<usize>)
    ensures
        r is Some <==> (s@.len() > 0 && all_digits(s@) && digits_value(s@) <= usize::MAX),
        r matches Some(v) ==> v == digits_value(s@),
{
    let n = s.as_str().unicode_len();
    if n == 0 {
        return None;
    }
    let mut acc: usize = 0;
    let mut i: usize = 0;
    while i < n
        invariant
            i <= n,
            n == s@.len(),
            forall|j: int| 0 <= j < i ==> is_digit(#[trigger] s@[j]),
            acc == digits_value(s@.subrange(0, i as int)),
        decreases n - i,
    {
        let c = s.as_str().get_char(i);
        if !('0' <= c && c <= '9') {
            return None;
        }
        let d: usize = (c as u32 - '0' as u32) as usize;
        assert(s@.subrange(0, i + 1).drop_last() =~= s@.subrange(0, i as int));
        if acc > (usize::MAX - d) / 10 {
            proof {
                lemma_digits_prefix(s@, i + 1);
            }
            return None;
        }
        acc = acc * 10 + d;
        i += 1;
    }
    assert(s@.subrange(0, n as int) =~= s@);
    Some(acc)
}

fn seg_from(t: &Tok) -> (r: Option<Seg>)
    ensures
        r is Some <==> seg_of(*t) is Some,
        r matches Some(s) ==> seg_of(*t) == Some(s@),
{
    match t {
        Tok::Ident(s) => Some(Seg::Name(s.clone())),
        Tok::Lit(s) => match decimal_index(s) {
            Some(i) => Some(Seg::Index(i)),
            None => None,
        },
        _ => None,
    }
}

fn parse_path(toks: &Vec<Tok>, lo: usize, hi: usize) -> (r: Option<Vec<Seg>>)
    requires
        lo <= hi <= toks@.len(),
    ensures
        r is Some <==> is_path(toks@.subrange(lo as int, hi as int)),
        r matches Some(v) ==> segs_view(v@) == path_segs(toks@.subrange(lo as int, hi as int)),
{
    let ghost p = toks@.subrange(lo as int, hi as int);
    if hi - lo < 2 || (hi - lo) % 2 != 0 {
        return None;
    }
    let mut out: Vec<Seg> = Vec::new();
    let mut i: usize = lo;
    while i < hi
        invariant
            lo <= i <= hi,
            hi <= toks@.len(),
            p == toks@.subrange(lo as int, hi as int),
            (hi - lo) % 2 == 0,
            (i - lo) % 2 == 0,
            out@.len() == (i - lo) / 2,
            forall|k: int| 0 <= k < (i - lo) / 2 ==> #[trigger] step_ok(p, k),
            forall|k: int| 0 <= k < out@.len() ==> seg_of(p[2 * k + 1]) == Some(#[trigger] out@[k]@),
        decreases hi - i,
    {
        let ghost k = (i - lo) / 2;
        assert(p[2 * k] == toks@[i as int]);
        assert(p[2 * k + 1] == toks@[i + 1]);
        if !punct_is(&toks[i], '.') {
            assert(!step_ok(p, k));
            return None;
        }
        match seg_from(&toks[i + 1]) {
            None => {
                assert(!step_ok(p, k));
                return None;
            },
            Some(s) => {
                out.push(s);
            },
        }
        i += 2;
    }
    assert(segs_view(out@) =~= path_segs(p));
    Some(out)
}

pub open spec fn dir_result_view(r: Result<Directive, (ErrorKind, usize)>) -> Result<
    DirV,
    (ErrorKind, usize),
> {
    match r {
        Ok(d) => Ok(d@),
        Err(e) => Err(e),
    }
}

fn parse_chunk(toks: &Vec<Tok>, lo: usize, hi: usize, field_level: bool) -> (r: Result<
    Directive,
    (ErrorKind, usize),
>)
    requires
        lo <= hi <= toks@.len(),
    ensures
        dir_result_view(r) == chunk_result(
            toks@.subrange(lo as int, hi as int),
            lo as int,
            field_level,
        ),
{
    let ghost c = toks@.subrange(lo as int, hi as int);
    if lo == hi {
        return Err((ErrorKind::Malformed, lo));
    }
    proof {
        reveal_strlit("code");
        reveal_strlit("delegate");
        assert("code"@ =~= code_word());
        assert("delegate"@ =~= delegate_word());
    }
    assert(c[0] == toks@[lo as int]);
    if ident_is(&toks[lo], "code") && !field_level {
        if hi - lo == 3 && punct_is(&toks[lo + 1], '=') {
            assert(c[1] == toks@[lo + 1]);
            assert(c[2] == toks@[lo + 2]);
            match &toks[lo + 2] {
                Tok::Lit(text) => {
                    if !starts_with_digit(text) {
                        return Err((ErrorKind::BadLiteral, lo + 2));
                    }
                    match code_from_value(literal_u16(text.as_str())) {
                        Ok(v) => Ok(Directive::Code(v)),
                        Err(e) => Err((e, lo + 2)),
                    }
                },
                _ => Err((ErrorKind::Malformed, lo)),
            }
        } else {
            proof {
                if hi - lo == 3 {
                    assert(c[1] == toks@[lo + 1]);
                }
            }
            Err((ErrorKind::Malformed, lo))
        }
    } else if ident_is(&toks[lo], "delegate") {
        if field_level {
            if hi - lo == 1 {
                Ok(Directive::Marker)
            } else {
                Err((ErrorKind::Malformed, lo))
            }
        } else if hi - lo >= 2 && punct_is(&toks[lo + 1], '=') {
            assert(c[1] == toks@[lo + 1]);
            assert(c.subrange(2, c.len() as int) =~= toks@.subrange(lo + 2, hi as int));
            match parse_path(toks, lo + 2, hi) {
                Some(p) => Ok(Directive::Delegate(p)),
                None => Err((ErrorKind::Malformed, lo)),
            }
        } else {
            proof {
                if hi - lo >= 2 {
                    assert(c[1] == toks@[lo + 1]);
                }
            }
            Err((ErrorKind::Malformed, lo))
        }
    } else {
        Err((ErrorKind::UnknownDirective, lo))
    }
}

/// The directives of one attribute's argument list.
fn parse_attr(toks: &Vec<Tok>, field_level: bool) -> (r: Result<Vec<Directive>, (ErrorKind, usize)>)
    ensures
        r matches Ok(v) ==> attr_directives(toks@, field_level) == Ok::<
            Seq<DirV>,
            (ErrorKind, usize),
        >(dirs_view(v@)),
        r matches Err(e) ==> attr_directives(toks@, field_level) == Err::<
            Seq<DirV>,
            (ErrorKind, usize),
        >(e),
{
    let n = toks.len();
    let mut out: Vec<Directive> = Vec::new();
    let mut start: usize = 0;
    let mut i: usize = 0;
    while i < n
        invariant
            start <= i <= n,
            n == toks@.len(),
            attr_directives(toks@, field_level) == prefixed(
                dirs_view(out@),
                directives_from(toks@, start as int, i as int, field_level),
            ),
        decreases n - i,
    {
        if punct_is(&toks[i], ',') {
            let c = parse_chunk(toks, start, i, field_level);
            match c {
                Err(e) => {
                    return Err(e);
                },
                Ok(d) => {
                    let ghost old_v = dirs_view(out@);
                    out.push(d);
                    proof {
                        assert(dirs_view(out@) =~= old_v.push(d@));
                        match directives_from(toks@, i + 1, i + 1, field_level) {
                            Ok(rest) => {
                                assert(old_v + (seq![d@] + rest) =~= old_v.push(d@) + rest);
                            },
                            Err(_) => {},
                        }
                    }
                    start = i + 1;
                },
            }
        }
        i += 1;
    }
    match parse_chunk(toks, start, n, field_level) {
        Err(e) => Err(e),
        Ok(d) => {
            let ghost old_v = dirs_view(out@);
            out.push(d);
            assert(dirs_view(out@) =~= old_v + seq![d@]);
            Ok(out)
        },
    }
}

/// The directives of a list of attributes, in order.
fn parse_attrs(attrs: &Vec<Vec<Tok>>, field_level: bool) -> (r: Result<Vec<Directive>, AttrError>)
    ensures
        r matches Ok(v) ==> all_directives(attrs@, field_level) == Ok::<Seq<DirV>, AttrError>(
            dirs_view(v@),
        ),
        r matches Err(e) ==> all_directives(attrs@, field_level) == Err::<Seq<DirV>, AttrError>(e),
{
    let mut out: Vec<Directive> = Vec::new();
    let mut i: usize = 0;
    assert(dirs_view(out@) =~= Seq::<DirV>::empty());
    assert(attrs@.subrange(0, 0) =~= Seq::<Vec<Tok>>::empty());
    while i < attrs.len()
        invariant
            i <= attrs@.len(),
            all_directives(attrs@.subrange(0, i as int), field_level) == Ok::<
                Seq<DirV>,
                AttrError,
            >(dirs_view(out@)),
        decreases attrs@.len() - i,
    {
        assert(attrs@.subrange(0, i + 1).drop_last() =~= attrs@.subrange(0, i as int));
        match parse_attr(&attrs[i], field_level) {
            Err((k, t)) => {
                proof {
                    lemma_all_directives_err(attrs@, i + 1, field_level);
                }
                return Err(AttrError { kind: k, at: Some(TokenPos { field: None, attr: i, tok: t }) });
            },
            Ok(mut v) => {
                let ghost old_v = dirs_view(out@);
                let ghost add = dirs_view(v@);
                out.append(&mut v);
                assert(dirs_view(out@) =~= old_v + add);
            },
        }
        i += 1;
    }
    assert(attrs@.subrange(0, i as int) =~= attrs@);
    Ok(out)
}

proof fn lemma_all_directives_err(attrs: Seq<Vec<Tok>>, k: int, field_level: bool)
    requires
        0 <= k <= attrs.len(),
        all_directives(attrs.subrange(0, k), field_level) is Err,
    ensures
        all_directives(attrs, field_level) == all_directives(attrs.subrange(0, k), field_level),
    decreases attrs.len(),
{
    if k < attrs.len() {
        assert(attrs.drop_last().subrange(0, k) =~= attrs.subrange(0, k));
        lemma_all_directives_err(attrs.drop_last(), k, field_level);
    } else {
        assert(attrs.subrange(0, k) =~= attrs);
    }
}

/// The type of a field: its source text, and the identifiers that occur in it.
pub struct FieldType {
    pub text: String,
    pub idents: Vec<String>,
}

/// A field, with the argument lists of its `response(...)` attributes.
pub struct Field {
    pub ident: Option<String>,
    pub ty: FieldType,
    pub attrs: Vec<Vec<Tok>>,
}

#[derive(Clone, Copy, Debug, PartialEq, Eq, Structural)]
pub enum FieldsKind {
    Named,
    Unnamed,
    Unit,
}

/// The fields of a struct, a union or an enum variant.
pub struct Fields {
    pub kind: FieldsKind,
    pub fields: Vec<Field>,
}

/// A status code that a unit answers with.
#[derive(Clone, Copy, Debug, PartialEq, Eq, Structural)]
pub struct CodeArg {
    pub code: u16,
}

pub open spec fn count_codes(d: Seq<DirV>) -> nat
    decreases d.len(),
{
    if d.len() == 0 {
        0
    } else {
        count_codes(d.drop_last()) + if d.last() is Code {
            1nat
        } else {
            0nat
        }
    }
}

pub open spec fn count_delegates(d: Seq<DirV>) -> nat
    decreases d.len(),
{
    if d.len() == 0 {
        0
    } else {
        count_delegates(d.drop_last()) + if d.last() is Delegate {
            1nat
        } else {
            0nat
        }
    }
}

pub open spec fn last_code(d: Seq<DirV>) -> Option<u16>
    decreases d.len(),
{
    if d.len() == 0 {
        None
    } else if d.last() is Code {
        Some(d.last()->Code_0)
    } else {
        last_code(d.drop_last())
    }
}

pub open spec fn last_delegate(d: Seq<DirV>) -> Option<Seq<SegV>>
    decreases d.len(),
{
    if d.len() == 0 {
        None
    } else if d.last() is Delegate {
        Some(d.last()->Delegate_0)
    } else {
        last_delegate(d.drop_last())
    }
}

pub(crate) proof fn lemma_count_codes_last(d: Seq<DirV>)
    ensures
        count_codes(d) > 0 ==> last_code(d) is Some,
    decreases d.len(),
{
    if d.len() > 0 {
        lemma_count_codes_last(d.drop_last());
    }
}

proof fn lemma_count_delegates_last(d: Seq<DirV>)
    ensures
        count_delegates(d) > 0 ==> last_delegate(d) is Some,
    decreases d.len(),
{
    if d.len() > 0 {
        lemma_count_delegates_last(d.drop_last());
    }
}

/// Counts of the codes and delegates among directives, the last code, and the
/// position of the last delegate.
pub(crate) fn tally(own: &Vec<Directive>) -> (r: (usize, usize, Option<u16>, Option<usize>))
    ensures
        r.0 == count_codes(dirs_view(own@)),
        r.1 == count_delegates(dirs_view(own@)),
        r.2 == last_code(dirs_view(own@)),
        r.3 is Some <==> last_delegate(dirs_view(own@)) is Some,
        r.3 matches Some(k) ==> k < own@.len() && own@[k as int]@ == DirV::Delegate(
            last_delegate(dirs_view(own@))->Some_0,
        ),
{
    let ghost d = dirs_view(own@);
    let mut nc: usize = 0;
    let mut nd: usize = 0;
    let mut lc: Option<u16> = None;
    let mut ld: Option<usize> = None;
    let mut i: usize = 0;
    assert(d.subrange(0, 0) =~= Seq::<DirV>::empty());
    while i < own.len()
        invariant
            i <= own@.len(),
            d == dirs_view(own@),
            nc <= i,
            nd <= i,
            nc == count_codes(d.subrange(0, i as int)),
            nd == count_delegates(d.subrange(0, i as int)),
            lc == last_code(d.subrange(0, i as int)),
            ld is Some <==> last_delegate(d.subrange(0, i as int)) is Some,
            ld matches Some(k) ==> k < i && own@[k as int]@ == DirV::Delegate(
                last_delegate(d.subrange(0, i as int))->Some_0,
            ),
        decreases own@.len() - i,
    {
        let ghost pre = d.subrange(0, i + 1);
        assert(pre.drop_last() =~= d.subrange(0, i as int));
        assert(pre.last() == own@[i as int]@);
        match &own[i] {
            Directive::Code(c) => {
                nc = nc + 1;
                lc = Some(*c);
            },
            Directive::Delegate(_) => {
                nd = nd + 1;
                ld = Some(i);
            },
            Directive::Marker => {},
        }
        i += 1;
    }
    assert(d.subrange(0, i as int) =~= d);
    (nc, nd, lc, ld)
}

pub(crate) fn copy_seg(s: &Seg) -> (r: Seg)
    ensures
        r@ == s@,
{
    match s {
        Seg::Name(n) => Seg::Name(n.clone()),
        Seg::Index(i) => Seg::Index(*i),
    }
}

/// The steps of a path from position `from` on.
pub(crate) fn path_from(p: &Vec<Seg>, from: usize) -> (r: Vec<Seg>)
    requires
        from <= p@.len(),
    ensures
        segs_view(r@) == segs_view(p@).subrange(from as int, p@.len() as int),
{
    let mut r: Vec<Seg> = Vec::new();
    let mut i: usize = from;
    while i < p.len()
        invariant
            from <= i <= p@.len(),
            r@.len() == i - from,
            forall|k: int| 0 <= k < r@.len() ==> #[trigger] r@[k]@ == p@[k + from]@,
        decreases p@.len() - i,
    {
        let s = copy_seg(&p[i]);
        r.push(s);
        i += 1;
    }
    assert(segs_view(r@) =~= segs_view(p@).subrange(from as int, p@.len() as int));
    r
}

/// Token `i` of an argument list begins a directive.
pub open spec fn starts_directive(t: Seq<Tok>, i: int) -> bool {
    i == 0 || is_punct(t[i - 1], ',')
}

/// The positions, among the first `n` tokens of attribute `a`, of the keyword
/// `w` where it begins a directive.
pub open spec fn attr_keywords(t: Seq<Tok>, w: Seq<char>, a: usize, n: int) -> Seq<TokenPos>
    decreases n,
{
    if n <= 0 {
        Seq::empty()
    } else if is_word(t[n - 1], w) && starts_directive(t, n - 1) {
        attr_keywords(t, w, a, n - 1).push(TokenPos { field: None, attr: a, tok: (n - 1) as usize })
    } else {
        attr_keywords(t, w, a, n - 1)
    }
}

/// The positions, in order, of the keyword `w` where it begins a directive
/// of a list of attributes.
pub open spec fn keyword_positions(attrs: Seq<Vec<Tok>>, w: Seq<char>) -> Seq<TokenPos>
    decreases attrs.len(),
{
    if attrs.len() == 0 {
        Seq::empty()
    } else {
        keyword_positions(attrs.drop_last(), w) + attr_keywords(
            attrs.last()@,
            w,
            (attrs.len() - 1) as usize,
            attrs.last()@.len() as int,
        )
    }
}

pub open spec fn nth_pos(s: Seq<TokenPos>, k: int) -> Option<TokenPos> {
    if 0 <= k < s.len() {
        Some(s[k])
    } else {
        None
    }
}

pub(crate) fn keyword_positions_of(attrs: &Vec<Vec<Tok>>, w: &str) -> (r: Vec<TokenPos>)
    ensures
        r@ == keyword_positions(attrs@, w@),
{
    let mut out: Vec<TokenPos> = Vec::new();
    let mut a: usize = 0;
    assert(attrs@.subrange(0, 0) =~= Seq::<Vec<Tok>>::empty());
    while a < attrs.len()
        invariant
            a <= attrs@.len(),
            out@ == keyword_positions(attrs@.subrange(0, a as int), w@),
        decreases attrs@.len() - a,
    {
        let t = &attrs[a];
        let ghost before = out@;
        let mut i: usize = 0;
        while i < t.len()
            invariant
                i <= t@.len(),
                t == attrs@[a as int],
                a < attrs@.len(),
                out@ == before + attr_keywords(t@, w@, a, i as int),
            decreases t@.len() - i,
        {
            let starts = i == 0 || punct_is(&t[i - 1], ',');
            if starts && ident_is(&t[i], w) {
                out.push(TokenPos { field: None, attr: a, tok: i });
                assert(out@ =~= before + attr_keywords(t@, w@, a, i + 1));
            } else {
                assert(out@ =~= before + attr_keywords(t@, w@, a, i + 1));
            }
            i += 1;
        }
        assert(attrs@.subrange(0, a + 1).drop_last() =~= attrs@.subrange(0, a as int));
        assert(attrs@.subrange(0, a + 1).last() == attrs@[a as int]);
        a += 1;
    }
    assert(attrs@.subrange(0, a as int) =~= attrs@);
    out
}

/// The positions of the keyword `delegate` where it begins a directive in the
/// attributes of the fields, field by field.
pub open spec fn field_keywords(fs: Seq<Field>) -> Seq<TokenPos>
    decreases fs.len(),
{
    if fs.len() == 0 {
        Seq::empty()
    } else {
        field_keywords(fs.drop_last()) + keyword_positions(fs.last().attrs@, delegate_word()).map_values(
            |p: TokenPos| TokenPos { field: Some((fs.len() - 1) as usize), attr: p.attr, tok: p.tok },
        )
    }
}

pub(crate) fn field_keywords_of(fs: &Vec<Field>) -> (r: Vec<TokenPos>)
    ensures
        r@ == field_keywords(fs@),
{
    let mut out: Vec<TokenPos> = Vec::new();
    let mut k: usize = 0;
    assert(fs@.subrange(0, 0) =~= Seq::<Field>::empty());
    while k < fs.len()
        invariant
            k <= fs@.len(),
            out@ == field_keywords(fs@.subrange(0, k as int)),
        decreases fs@.len() - k,
    {
        let kp = keyword_positions_of(&fs[k].attrs, "delegate");
        proof {
            reveal_strlit("delegate");
            assert("delegate"@ =~= delegate_word());
        }
        let ghost before = out@;
        let ghost mapped = kp@.map_values(
            |p: TokenPos| TokenPos { field: Some(k), attr: p.attr, tok: p.tok },
        );
        let mut j: usize = 0;
        while j < kp.len()
            invariant
                j <= kp@.len(),
                mapped == kp@.map_values(
                    |p: TokenPos| TokenPos { field: Some(k), attr: p.attr, tok: p.tok },
                ),
                out@ == before + mapped.subrange(0, j as int),
            decreases kp@.len() - j,
        {
            let p = kp[j];
            out.push(TokenPos { field: Some(k), attr: p.attr, tok: p.tok });
            assert(mapped.subrange(0, j + 1) =~= mapped.subrange(0, j as int).push(mapped[j as int]));
            assert(out@ =~= before + mapped.subrange(0, j + 1));
            j += 1;
        }
        assert(mapped.subrange(0, j as int) =~= mapped);
        let ghost pre = fs@.subrange(0, k + 1);
        assert(pre.drop_last() =~= fs@.subrange(0, k as int));
        assert(pre.last() == fs@[k as int]);
        assert(mapped =~= keyword_positions(pre.last().attrs@, delegate_word()).map_values(
            |p: TokenPos| TokenPos { field: Some((pre.len() - 1) as usize), attr: p.attr, tok: p.tok },
        ));
        assert(field_keywords(pre) == field_keywords(fs@.subrange(0, k as int)) + mapped);
        k += 1;
    }
    assert(fs@.subrange(0, k as int) =~= fs@);
    out
}

pub(crate) fn nth_of(s: &Vec<TokenPos>, k: usize) -> (r: Option<TokenPos>)
    ensures
        r == nth_pos(s@, k as int),
{
    if k < s.len() {
        Some(s[k])
    } else {
        None
    }
}

/// What a unit's own directives give: at most one code, at most one delegate
/// path, never both.
pub struct UnitAttrsV {
    pub code: Option<u16>,
    pub delegate: Option<Seq<SegV>>,
}

/// A unit's own directives checked for conflicts first, then for repetitions,
/// wherever in the attributes each one was written.
pub open spec fn unit_attrs(d: Seq<DirV>) -> Result<UnitAttrsV, ErrorKind> {
    let nc = count_codes(d);
    let nd = count_delegates(d);
    if nc > 0 && nd > 0 {
        Err(ErrorKind::CodeAndDelegate)
    } else if nc > 1 {
        Err(ErrorKind::DuplicateCode)
    } else if nd > 1 {
        Err(ErrorKind::DuplicateDelegate)
    } else {
        Ok(UnitAttrsV { code: last_code(d), delegate: last_delegate(d) })
    }
}

/// The attributes of a type or a variant: grammar errors first, then the
/// checks on the directives that they give.
pub open spec fn type_attrs(attrs: Seq<Vec<Tok>>) -> Result<UnitAttrsV, AttrError> {
    match all_directives(attrs, false) {
        Err(e) => Err(e),
        Ok(d) => match unit_attrs(d) {
            Ok(u) => Ok(u),
            Err(k) => Err(AttrError { kind: k, at: repeat_at(attrs, k) }),
        },
    }
}

/// Where a repetition or a conflict among a unit's own directives is
/// reported: a conflict on the first `delegate`, a repetition on the second
/// occurrence of its keyword.
pub open spec fn repeat_at(attrs: Seq<Vec<Tok>>, k: ErrorKind) -> Option<TokenPos> {
    match k {
        ErrorKind::CodeAndDelegate => nth_pos(keyword_positions(attrs, delegate_word()), 0),
        ErrorKind::DuplicateCode => nth_pos(keyword_positions(attrs, code_word()), 1),
        _ => nth_pos(keyword_positions(attrs, delegate_word()), 1),
    }
}

/// The code and the delegate path of a type's or a variant's own attributes.
pub struct TypeAttrs {
    pub code: Option<CodeArg>,
    pub delegate: Option<Vec<Seg>>,
}

impl View for TypeAttrs {
    type V = UnitAttrsV;

    open spec fn view(&self) -> UnitAttrsV {
        UnitAttrsV {
            code: match self.code {
                Some(c) => Some(c.code),
                None => None,
            },
            delegate: match self.delegate {
                Some(p) => Some(segs_view(p@)),
                None => None,
            },
        }
    }
}

pub open spec fn type_attrs_view(r: Result<TypeAttrs, AttrError>) -> Result<UnitAttrsV, AttrError> {
    match r {
        Ok(t) => Ok(t@),
        Err(e) => Err(e),
    }
}

impl TypeAttrs {
    /// Reads the `response(...)` attributes of a type or a variant: at most one
    /// code and at most one delegate path, never both; a repetition or a
    /// conflict is rejected, wherever in the attributes it was written.
    pub fn new(attrs: &Vec<Vec<Tok>>) -> (r: Result<TypeAttrs, AttrError>)
        ensures
            type_attrs_view(r) == type_attrs(attrs@),
            all_directives(attrs@, false) matches Ok(d) ==> (count_codes(d) > 0
                && count_delegates(d) > 0 ==> r == Err::<TypeAttrs, AttrError>(
                AttrError {
                    kind: ErrorKind::CodeAndDelegate,
                    at: nth_pos(keyword_positions(attrs@, delegate_word()), 0),
                },
            )),
            all_directives(attrs@, false) matches Ok(d) ==> (count_codes(d) > 1
                && count_delegates(d) == 0 ==> r == Err::<TypeAttrs, AttrError>(
                AttrError {
                    kind: ErrorKind::DuplicateCode,
                    at: nth_pos(keyword_positions(attrs@, code_word()), 1),
                },
            )),
            all_directives(attrs@, false) matches Ok(d) ==> (count_delegates(d) > 1
                && count_codes(d) == 0 ==> r == Err::<TypeAttrs, AttrError>(
                AttrError {
                    kind: ErrorKind::DuplicateDelegate,
                    at: nth_pos(keyword_positions(attrs@, delegate_word()), 1),
                },
            )),
    {
        let dirs = match parse_attrs(attrs, false) {
            Ok(d) => d,
            Err(e) => {
                return Err(e);
            },
        };
        let ghost d = dirs_view(dirs@);
        let (nc, nd, lc, ld) = tally(&dirs);
        if nc > 0 && nd > 0 {
            let kp = keyword_positions_of(attrs, "delegate");
            proof {
                reveal_strlit("delegate");
                assert("delegate"@ =~= delegate_word());
            }
            return Err(AttrError { kind: ErrorKind::CodeAndDelegate, at: nth_of(&kp, 0) });
        }
        if nc > 1 {
            let kp = keyword_positions_of(attrs, "code");
            proof {
                reveal_strlit("code");
                assert("code"@ =~= code_word());
            }
            return Err(AttrError { kind: ErrorKind::DuplicateCode, at: nth_of(&kp, 1) });
        }
        if nd > 1 {
            let kp = keyword_positions_of(attrs, "delegate");
            proof {
                reveal_strlit("delegate");
                assert("delegate"@ =~= delegate_word());
            }
            return Err(AttrError { kind: ErrorKind::DuplicateDelegate, at: nth_of(&kp, 1) });
        }
        proof {
            lemma_count_codes_last(d);
            lemma_count_delegates_last(d);
        }
        let code = match lc {
            Some(c) => Some(CodeArg { code: c }),
            None => None,
        };
        let delegate = match ld {
            Some(i) => match &dirs[i] {
                Directive::Delegate(p) => {
                    let q = path_from(p, 0);
                    assert(segs_view(p@).subrange(0, p@.len() as int) =~= segs_view(p@));
                    Some(q)
                },
                _ => None,
            },
            None => None,
        };
        Ok(TypeAttrs { code, delegate })
    }
}


/// The positions of the fields that carry the `delegate` marker, once for each
/// time it is written; the first rejected attribute decides the result.
pub open spec fn field_marks(fs: Seq<Field>) -> Result<Seq<nat>, AttrError>
    decreases fs.len(),
{
    if fs.len() == 0 {
        Ok(Seq::empty())
    } else {
        match field_marks(fs.drop_last()) {
            Err(e) => Err(e),
            Ok(m) => match all_directives(fs.last().attrs@, true) {
                Err(e) => Err(in_field(e, (fs.len() - 1) as usize)),
                Ok(d) => Ok(m + Seq::new(d.len(), |j: int| (fs.len() - 1) as nat)),
            },
        }
    }
}

pub open spec fn marks_view(v: Seq<usize>) -> Seq<nat> {
    v.map_values(|x: usize| x as nat)
}

proof fn lemma_field_marks_err(fs: Seq<Field>, k: int)
    requires
        0 <= k <= fs.len(),
        field_marks(fs.subrange(0, k)) is Err,
    ensures
        field_marks(fs) == field_marks(fs.subrange(0, k)),
    decreases fs.len(),
{
    if k < fs.len() {
        assert(fs.drop_last().subrange(0, k) =~= fs.subrange(0, k));
        lemma_field_marks_err(fs.drop_last(), k);
    } else {
        assert(fs.subrange(0, k) =~= fs);
    }
}

proof fn lemma_marks_in_range(fs: Seq<Field>)
    requires
        field_marks(fs) is Ok,
    ensures
        forall|x: int|
            0 <= x < field_marks(fs)->Ok_0.len() ==> #[trigger] field_marks(fs)->Ok_0[x]
                < fs.len(),
    decreases fs.len(),
{
    if fs.len() > 0 {
        lemma_marks_in_range(fs.drop_last());
    }
}

/// The field that carries the `delegate` marker, if any: every attribute is
/// read first, and a second marker, on another field or on the same one, is a
/// repetition.
pub open spec fn fields_delegate(fs: Seq<Field>) -> Result<Option<nat>, AttrError> {
    match field_marks(fs) {
        Err(e) => Err(e),
        Ok(m) => if m.len() > 1 {
            Err(AttrError { kind: ErrorKind::DuplicateDelegate, at: nth_pos(field_keywords(fs), 1) })
        } else if m.len() == 1 {
            Ok(Some(m[0]))
        } else {
            Ok(None)
        },
    }
}

/// The field of a list of fields that carries the delegate marker.
pub struct FieldsAttrs {
    pub delegate: Option<usize>,
}

pub open spec fn fields_attrs_view(r: Result<FieldsAttrs, AttrError>) -> Result<
    Option<nat>,
    AttrError,
> {
    match r {
        Ok(f) => Ok(
            match f.delegate {
                Some(k) => Some(k as nat),
                None => None,
            },
        ),
        Err(e) => Err(e),
    }
}

/// The positions of the marked fields, once for each marker.
fn field_markers(fields: &Fields) -> (r: Result<Vec<usize>, AttrError>)
    ensures
        r matches Ok(v) ==> field_marks(fields.fields@) == Ok::<Seq<nat>, AttrError>(
            marks_view(v@),
        ),
        r matches Err(e) ==> field_marks(fields.fields@) == Err::<Seq<nat>, AttrError>(e),
{
    let fs = &fields.fields;
    let mut marked: Vec<usize> = Vec::new();
    let mut i: usize = 0;
    assert(marks_view(marked@) =~= Seq::<nat>::empty());
    assert(fs@.subrange(0, 0) =~= Seq::<Field>::empty());
    while i < fs.len()
        invariant
            i <= fs@.len(),
            fs@ == fields.fields@,
            field_marks(fs@.subrange(0, i as int)) == Ok::<Seq<nat>, AttrError>(
                marks_view(marked@),
            ),
        decreases fs@.len() - i,
    {
        assert(fs@.subrange(0, i + 1).drop_last() =~= fs@.subrange(0, i as int));
        match parse_attrs(&fs[i].attrs, true) {
            Err(e) => {
                let e = at_field(e, i);
                proof {
                    assert(fs@.subrange(0, i + 1).last() == fs@[i as int]);
                    assert(field_marks(fs@.subrange(0, i + 1)) == Err::<Seq<nat>, AttrError>(e));
                    lemma_field_marks_err(fs@, i + 1);
                }
                return Err(e);
            },
            Ok(v) => {
                let ghost before = marks_view(marked@);
                let mut j: usize = 0;
                while j < v.len()
                    invariant
                        j <= v@.len(),
                        marks_view(marked@) == before + Seq::new(j as nat, |x: int| i as nat),
                    decreases v@.len() - j,
                {
                    let ghost m = marks_view(marked@);
                    marked.push(i);
                    assert(marks_view(marked@) =~= m.push(i as nat));
                    assert(before + Seq::new((j + 1) as nat, |x: int| i as nat) =~= m.push(
                        i as nat,
                    ));
                    j += 1;
                }
                assert(dirs_view(v@).len() == v@.len());
                assert(fs@.subrange(0, i + 1).last() == fs@[i as int]);
            },
        }
        i += 1;
    }
    assert(fs@.subrange(0, i as int) =~= fs@);
    Ok(marked)
}

impl FieldsAttrs {
    /// Finds the field that carries the `delegate` marker; a second marker, on
    /// another field or on the same one, is rejected.
    pub fn new(fields: &Fields) -> (r: Result<FieldsAttrs, AttrError>)
        ensures
            fields_attrs_view(r) == fields_delegate(fields.fields@),
            field_marks(fields.fields@) matches Ok(m) ==> (m.len() > 1 ==> r == Err::<
                FieldsAttrs,
                AttrError,
            >(
                AttrError {
                    kind: ErrorKind::DuplicateDelegate,
                    at: nth_pos(field_keywords(fields.fields@), 1),
                },
            )),
            r matches Ok(f) ==> (f.delegate matches Some(k) ==> k < fields.fields@.len()),
    {
        let marked = match field_markers(fields) {
            Ok(v) => v,
            Err(e) => {
                return Err(e);
            },
        };
        proof {
            lemma_marks_in_range(fields.fields@);
        }
        if marked.len() > 1 {
            let kp = field_keywords_of(&fields.fields);
            return Err(AttrError { kind: ErrorKind::DuplicateDelegate, at: nth_of(&kp, 1) });
        }
        if marked.len() == 1 {
            assert(field_marks(fields.fields@)->Ok_0[0] == marks_view(marked@)[0]);
            return Ok(FieldsAttrs { delegate: Some(marked[0]) });
        }
        Ok(FieldsAttrs { delegate: None })
    }
}

} // verus!

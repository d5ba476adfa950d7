//! The tracing code of a payload type.
//!
//! Every field is traced, unless an attribute says otherwise: `gc(skip)` leaves it out and
//! `gc(with = "path")` names a function to be called for it.

use vstd::prelude::*;

use crate::codegen::syntax::{is_path, path_text, same_text};

verus! {

/// One item of an attribute's arguments.
#[derive(Debug)]
pub enum Meta {
    /// A key alone.
    Flag(String),
    /// A key with a value: what the value holds, if it is a string literal.
    Value(String, Option<String>),
    /// Anything that does not have this form.
    Broken,
}

/// One item of an attribute's arguments.
pub enum MetaView {
    Flag(Seq<char>),
    Value(Seq<char>, Option<Seq<char>>),
    Broken,
}

impl View for Meta {
    type V = MetaView;

    open spec fn view(&self) -> MetaView {
        match self {
            Meta::Flag(key) => MetaView::Flag(key@),
            Meta::Value(key, Some(text)) => MetaView::Value(key@, Some(text@)),
            Meta::Value(key, None) => MetaView::Value(key@, None),
            Meta::Broken => MetaView::Broken,
        }
    }
}

/// An attribute of a field.
#[derive(Debug)]
pub struct Attribute {
    pub name: String,
    pub args: Vec<Meta>,
}

/// What is emitted for a field.
#[derive(Debug)]
pub enum FieldKind {
    /// A call of the field's own tracing function.
    Trace,
    /// Nothing.
    Skip,
    /// A call of the function with this path.
    With(String),
}

/// What is emitted for a field.
pub enum KindView {
    Trace,
    Skip,
    With(Seq<char>),
}

impl View for FieldKind {
    type V = KindView;

    open spec fn view(&self) -> KindView {
        match self {
            FieldKind::Trace => KindView::Trace,
            FieldKind::Skip => KindView::Skip,
            FieldKind::With(path) => KindView::With(path@),
        }
    }
}

/// Why no tracing code is generated.
#[derive(Debug, Clone, Copy, PartialEq, Eq, Structural)]
pub enum DeriveError {
    /// The type is a union.
    Union,
    /// An attribute has an unknown key.
    UnknownKey,
    /// A field has more than one attribute.
    Duplicate,
    /// The arguments of an attribute are malformed.
    Syntax,
}

impl DeriveError {
    /// The text that a compiler error shows.
    pub open spec fn spec_message(self) -> Seq<char> {
        match self {
            DeriveError::Union => "GcTrace cannot be derived for unions"@,
            DeriveError::UnknownKey =>
            "unknown `gc` attribute; expected `#[gc(skip)]` or `#[gc(with = \"path\")]`"@,
            DeriveError::Duplicate => "duplicate `gc` attribute on the same field"@,
            DeriveError::Syntax => "malformed `gc` attribute"@,
        }
    }

    /// The text that a compiler error shows.
    pub fn message(&self) -> (r: String)
        ensures
            r@ == self.spec_message(),
    {
        let text: &str = match self {
            DeriveError::Union => "GcTrace cannot be derived for unions",
            DeriveError::UnknownKey =>
            "unknown `gc` attribute; expected `#[gc(skip)]` or `#[gc(with = \"path\")]`",
            DeriveError::Duplicate => "duplicate `gc` attribute on the same field",
            DeriveError::Syntax => "malformed `gc` attribute",
        };
        text.to_owned()
    }
}

/// What a field's attributes say once one more item was read: `state` is what they said before,
/// and `path` tells whether the item's text is a path.
pub open spec fn kind_after(state: Option<KindView>, item: MetaView, path: bool) -> Result<
    KindView,
    DeriveError,
> {
    match item {
        MetaView::Broken => Err(DeriveError::Syntax),
        MetaView::Flag(key) => if key == "skip"@ {
            if state is Some {
                Err(DeriveError::Duplicate)
            } else {
                Ok(KindView::Skip)
            }
        } else if key == "with"@ {
            Err(DeriveError::Syntax)
        } else {
            Err(DeriveError::UnknownKey)
        },
        MetaView::Value(key, text) => if key == "skip"@ {
            if state is Some {
                Err(DeriveError::Duplicate)
            } else {
                Err(DeriveError::Syntax)
            }
        } else if key == "with"@ {
            match text {
                Some(t) => if !path {
                    Err(DeriveError::Syntax)
                } else if state is Some {
                    Err(DeriveError::Duplicate)
                } else {
                    Ok(KindView::With(t))
                },
                None => Err(DeriveError::Syntax),
            }
        } else {
            Err(DeriveError::UnknownKey)
        },
    }
}

/// The item's text is a path.
pub open spec fn names_path(item: MetaView) -> bool {
    match item {
        MetaView::Value(_, Some(text)) => path_text(text),
        _ => false,
    }
}

/// The items of a list.
pub open spec fn metas(list: Seq<Meta>) -> Seq<MetaView> {
    Seq::new(list.len(), |i: int| list[i]@)
}

/// What the first `n` items say, after `state`.
pub open spec fn kind_upto(state: Option<KindView>, items: Seq<MetaView>, n: int) -> Result<
    Option<KindView>,
    DeriveError,
>
    decreases n,
{
    if n <= 0 {
        Ok(state)
    } else {
        match kind_upto(state, items, n - 1) {
            Err(e) => Err(e),
            Ok(s) => match kind_after(s, items[n - 1], names_path(items[n - 1])) {
                Err(e) => Err(e),
                Ok(k) => Ok(Some(k)),
            },
        }
    }
}

/// What the first `n` attributes of a field say. Attributes of other names do not count.
pub open spec fn kind_of_attrs(attrs: Seq<Attribute>, n: int) -> Result<
    Option<KindView>,
    DeriveError,
>
    decreases n,
{
    if n <= 0 {
        Ok(None)
    } else {
        match kind_of_attrs(attrs, n - 1) {
            Err(e) => Err(e),
            Ok(s) => if attrs[n - 1].name@ == "gc"@ {
                let items = metas(attrs[n - 1].args@);
                kind_upto(s, items, items.len() as int)
            } else {
                Ok(s)
            },
        }
    }
}

/// What is emitted for a field with these attributes.
pub open spec fn spec_field_kind(attrs: Seq<Attribute>) -> Result<KindView, DeriveError> {
    match kind_of_attrs(attrs, attrs.len() as int) {
        Err(e) => Err(e),
        Ok(Some(k)) => Ok(k),
        Ok(None) => Ok(KindView::Trace),
    }
}

/// What a field's attributes say once one more item was read: `seen` tells whether they said
/// anything before, and `path` whether the item's text is a path.
pub fn next_kind(seen: bool, item: &Meta, path: bool) -> (r: Result<FieldKind, DeriveError>)
    ensures
        forall|state: Option<KindView>|
            #![trigger kind_after(state, item@, path)]
            (state is Some) == seen ==> match r {
                Ok(k) => kind_after(state, item@, path) == Ok::<KindView, DeriveError>(k@),
                Err(e) => kind_after(state, item@, path) == Err::<KindView, DeriveError>(e),
            },
{
    match item {
        Meta::Broken => Err(DeriveError::Syntax),
        Meta::Flag(key) => {
            if same_text(key, "skip") {
                if seen {
                    Err(DeriveError::Duplicate)
                } else {
                    Ok(FieldKind::Skip)
                }
            } else if same_text(key, "with") {
                Err(DeriveError::Syntax)
            } else {
                Err(DeriveError::UnknownKey)
            }
        },
        Meta::Value(key, text) => {
            if same_text(key, "skip") {
                if seen {
                    Err(DeriveError::Duplicate)
                } else {
                    Err(DeriveError::Syntax)
                }
            } else if same_text(key, "with") {
                match text {
                    Some(t) => {
                        if !path {
                            Err(DeriveError::Syntax)
                        } else if seen {
                            Err(DeriveError::Duplicate)
                        } else {
                            Ok(FieldKind::With(t.clone()))
                        }
                    },
                    None => Err(DeriveError::Syntax),
                }
            } else {
                Err(DeriveError::UnknownKey)
            }
        },
    }
}

/// What is emitted for a field with these attributes. A field has at most one `gc` attribute, and
/// unknown keys are refused.
pub fn field_kind(attrs: &Vec<Attribute>) -> (r: Result<FieldKind, DeriveError>)
    ensures
        match r {
            Ok(k) => spec_field_kind(attrs@) == Ok::<KindView, DeriveError>(k@),
            Err(e) => spec_field_kind(attrs@) == Err::<KindView, DeriveError>(e),
        },
{
    let mut kind: Option<FieldKind> = None;
    let ghost mut state: Option<KindView> = None;
    let mut i: usize = 0;
    while i < attrs.len()
        invariant
            i <= attrs@.len(),
            kind is Some == state is Some,
            kind matches Some(k) ==> state == Some(k@),
            kind_of_attrs(attrs@, i as int) == Ok::<Option<KindView>, DeriveError>(state),
        decreases attrs@.len() - i,
    {
        let attr: &Attribute = &attrs[i];
        if same_text(&attr.name, "gc") {
            let ghost items = metas(attr.args@);
            let ghost first = state;
            let mut j: usize = 0;
            while j < attr.args.len()
                invariant
                    j <= attr.args@.len(),
                    i < attrs@.len(),
                    *attr == attrs@[i as int],
                    attr.name@ == "gc"@,
                    items == metas(attr.args@),
                    kind is Some == state is Some,
                    kind matches Some(k) ==> state == Some(k@),
                    kind_of_attrs(attrs@, i as int) == Ok::<Option<KindView>, DeriveError>(first),
                    kind_upto(first, items, j as int) == Ok::<Option<KindView>, DeriveError>(
                        state,
                    ),
                decreases attr.args@.len() - j,
            {
                let item: &Meta = &attr.args[j];
                assert(items[j as int] == item@);
                let path: bool = match item {
                    Meta::Value(_, Some(text)) => is_path(text.as_str()),
                    _ => false,
                };
                assert(path == names_path(item@));
                match next_kind(kind.is_some(), item, path) {
                    Ok(k) => {
                        proof {
                            assert(kind_after(state, item@, path) == Ok::<KindView, DeriveError>(
                                k@,
                            ));
                            state = Some(k@);
                        }
                        kind = Some(k);
                    },
                    Err(e) => {
                        proof {
                            assert(kind_after(state, item@, path) == Err::<KindView, DeriveError>(
                                e,
                            ));
                            lemma_kind_error(first, items, j + 1, items.len() as int);
                            lemma_attrs_error(attrs@, i + 1, attrs@.len() as int);
                        }
                        return Err(e);
                    },
                }
                j = j + 1;
            }
        }
        i = i + 1;
    }
    match kind {
        Some(k) => Ok(k),
        None => Ok(FieldKind::Trace),
    }
}

/// An error among the first items stands, whatever follows.
proof fn lemma_kind_error(state: Option<KindView>, items: Seq<MetaView>, n: int, m: int)
    requires
        0 <= n <= m,
        kind_upto(state, items, n) is Err,
    ensures
        kind_upto(state, items, m) == kind_upto(state, items, n),
    decreases m,
{
    if n < m {
        lemma_kind_error(state, items, n, m - 1);
    }
}

/// An error among the first attributes stands, whatever follows.
proof fn lemma_attrs_error(attrs: Seq<Attribute>, n: int, m: int)
    requires
        0 <= n <= m,
        kind_of_attrs(attrs, n) is Err,
    ensures
        kind_of_attrs(attrs, m) == kind_of_attrs(attrs, n),
    decreases m,
{
    if n < m {
        lemma_attrs_error(attrs, n, m - 1);
    }
}

/// A field of a struct or of an enum variant. The fields of a tuple have no names.
#[derive(Debug)]
pub struct Field {
    pub name: String,
    pub attrs: Vec<Attribute>,
}

/// The fields of a struct or of an enum variant.
#[derive(Debug)]
pub enum Fields {
    Named(Vec<Field>),
    Unnamed(Vec<Field>),
    Unit,
}

/// A variant of an enum.
#[derive(Debug)]
pub struct Variant {
    pub name: String,
    pub fields: Fields,
}

/// What kind of type it is.
#[derive(Debug)]
pub enum Data {
    Struct(Fields),
    Enum(Vec<Variant>),
    Union,
}

/// A parameter of a generic type.
#[derive(Debug)]
pub struct Param {
    pub name: String,
    /// The parameter stands for a type, not for a lifetime or a constant.
    pub is_type: bool,
    pub bounds: Vec<String>,
}

/// A type for which tracing code is generated.
#[derive(Debug)]
pub struct DeriveInput {
    pub name: String,
    pub params: Vec<Param>,
    pub data: Data,
}

/// What a call is handed.
#[derive(Debug)]
pub enum Target {
    /// A reference to the field of that name.
    Named(String),
    /// A reference to the field at that position.
    Index(usize),
    /// What the pattern has bound to that name.
    Binding(String),
    /// What the pattern has bound for the field at that position.
    Slot(usize),
}

/// What a call is handed.
pub enum TargetView {
    Named(Seq<char>),
    Index(int),
    Binding(Seq<char>),
    Slot(int),
}

impl View for Target {
    type V = TargetView;

    open spec fn view(&self) -> TargetView {
        match self {
            Target::Named(name) => TargetView::Named(name@),
            Target::Index(i) => TargetView::Index(*i as int),
            Target::Binding(name) => TargetView::Binding(name@),
            Target::Slot(i) => TargetView::Slot(*i as int),
        }
    }
}

/// A call in the generated code.
#[derive(Debug)]
pub struct Call {
    /// The function to be called; `None` for the field's own tracing function.
    pub path: Option<String>,
    pub target: Target,
}

/// A call in the generated code.
pub struct CallView {
    pub path: Option<Seq<char>>,
    pub target: TargetView,
}

impl View for Call {
    type V = CallView;

    open spec fn view(&self) -> CallView {
        CallView {
            path: match self.path {
                Some(p) => Some(p@),
                None => None,
            },
            target: self.target@,
        }
    }
}

/// The calls of a list.
pub open spec fn calls(list: Seq<Call>) -> Seq<CallView> {
    Seq::new(list.len(), |i: int| list[i]@)
}

/// The fields live in a struct: they are reached through the value. Otherwise a pattern has bound
/// them.
pub open spec fn target_of(in_struct: bool, named: bool, name: Seq<char>, i: int) -> TargetView {
    match (in_struct, named) {
        (true, true) => TargetView::Named(name),
        (true, false) => TargetView::Index(i),
        (false, true) => TargetView::Binding(name),
        (false, false) => TargetView::Slot(i),
    }
}

/// The call for one field, if there is one.
pub open spec fn call_of(kind: KindView, target: TargetView) -> Option<CallView> {
    match kind {
        KindView::Trace => Some(CallView { path: None, target }),
        KindView::Skip => None,
        KindView::With(p) => Some(CallView { path: Some(p), target }),
    }
}

/// The calls for the first `n` fields, in order; the first error if there is one.
pub open spec fn stmts_upto(fields: Seq<Field>, in_struct: bool, named: bool, n: int) -> Result<
    Seq<CallView>,
    DeriveError,
>
    decreases n,
{
    if n <= 0 {
        Ok(Seq::empty())
    } else {
        match stmts_upto(fields, in_struct, named, n - 1) {
            Err(e) => Err(e),
            Ok(list) => match spec_field_kind(fields[n - 1].attrs@) {
                Err(e) => Err(e),
                Ok(k) => match call_of(
                    k,
                    target_of(in_struct, named, fields[n - 1].name@, n - 1),
                ) {
                    Some(c) => Ok(list.push(c)),
                    None => Ok(list),
                },
            },
        }
    }
}

/// An error among the first fields stands, whatever follows.
proof fn lemma_stmts_error(fields: Seq<Field>, in_struct: bool, named: bool, n: int, m: int)
    requires
        0 <= n <= m,
        stmts_upto(fields, in_struct, named, n) is Err,
    ensures
        stmts_upto(fields, in_struct, named, m) == stmts_upto(fields, in_struct, named, n),
    decreases m,
{
    if n < m {
        lemma_stmts_error(fields, in_struct, named, n, m - 1);
    }
}

/// The calls for the fields of a struct or variant, and which of the fields they need: those that
/// are not skipped.
fn field_stmts(fields: &Vec<Field>, in_struct: bool, named: bool) -> (r: Result<
    (Vec<Call>, Vec<bool>),
    DeriveError,
>)
    ensures
        match r {
            Ok((list, bound)) => {
                &&& stmts_upto(fields@, in_struct, named, fields@.len() as int) == Ok::<
                    Seq<CallView>,
                    DeriveError,
                >(calls(list@))
                &&& bound@.len() == fields@.len()
                &&& forall|i: int|
                    0 <= i < bound@.len() ==> #[trigger] bound@[i] == (spec_field_kind(
                        fields@[i].attrs@,
                    ) != Ok::<KindView, DeriveError>(KindView::Skip))
            },
            Err(e) => stmts_upto(fields@, in_struct, named, fields@.len() as int) == Err::<
                Seq<CallView>,
                DeriveError,
            >(e),
        },
{
    let mut list: Vec<Call> = Vec::new();
    let mut bound: Vec<bool> = Vec::new();
    let mut i: usize = 0;
    proof {
        assert(calls(list@) =~= Seq::<CallView>::empty());
    }
    while i < fields.len()
        invariant
            i <= fields@.len(),
            stmts_upto(fields@, in_struct, named, i as int) == Ok::<Seq<CallView>, DeriveError>(
                calls(list@),
            ),
            bound@.len() == i,
            forall|k: int|
                0 <= k < i ==> #[trigger] bound@[k] == (spec_field_kind(fields@[k].attrs@) != Ok::<
                    KindView,
                    DeriveError,
                >(KindView::Skip)),
        decreases fields@.len() - i,
    {
        let kind: FieldKind = match field_kind(&fields[i].attrs) {
            Ok(k) => k,
            Err(e) => {
                proof {
                    lemma_stmts_error(fields@, in_struct, named, i + 1, fields@.len() as int);
                }
                return Err(e);
            },
        };
        let target: Target = if in_struct {
            if named {
                Target::Named(fields[i].name.clone())
            } else {
                Target::Index(i)
            }
        } else if named {
            Target::Binding(fields[i].name.clone())
        } else {
            Target::Slot(i)
        };
        let ghost seen = target@;
        let ghost before = calls(list@);
        assert(seen == target_of(in_struct, named, fields@[i as int].name@, i as int));
        match kind {
            FieldKind::Skip => {
                bound.push(false);
            },
            FieldKind::Trace => {
                bound.push(true);
                list.push(Call { path: None, target });
                assert(calls(list@) =~= before.push(CallView { path: None, target: seen }));
            },
            FieldKind::With(p) => {
                bound.push(true);
                let ghost text = p@;
                list.push(Call { path: Some(p), target });
                assert(calls(list@) =~= before.push(CallView { path: Some(text), target: seen }));
            },
        }
        i = i + 1;
    }
    Ok((list, bound))
}

/// The calls for the fields of a struct with named fields.
pub fn named_field_stmts(fields: &Vec<Field>) -> (r: Result<Vec<Call>, DeriveError>)
    ensures
        match r {
            Ok(list) => stmts_upto(fields@, true, true, fields@.len() as int) == Ok::<
                Seq<CallView>,
                DeriveError,
            >(calls(list@)),
            Err(e) => stmts_upto(fields@, true, true, fields@.len() as int) == Err::<
                Seq<CallView>,
                DeriveError,
            >(e),
        },
{
    match field_stmts(fields, true, true) {
        Ok((list, _)) => Ok(list),
        Err(e) => Err(e),
    }
}

/// The calls for the fields of a tuple struct.
pub fn unnamed_field_stmts(fields: &Vec<Field>) -> (r: Result<Vec<Call>, DeriveError>)
    ensures
        match r {
            Ok(list) => stmts_upto(fields@, true, false, fields@.len() as int) == Ok::<
                Seq<CallView>,
                DeriveError,
            >(calls(list@)),
            Err(e) => stmts_upto(fields@, true, false, fields@.len() as int) == Err::<
                Seq<CallView>,
                DeriveError,
            >(e),
        },
{
    match field_stmts(fields, true, false) {
        Ok((list, _)) => Ok(list),
        Err(e) => Err(e),
    }
}

/// How a pattern names the fields of a variant.
#[derive(Debug, Clone, Copy, PartialEq, Eq, Structural)]
pub enum Shape {
    Named,
    Unnamed,
    Unit,
}

/// A field in a pattern: its name, if the fields have names, and whether it is bound. A field that
/// is not bound is matched by an underscore.
#[derive(Debug)]
pub struct Binding {
    pub name: String,
    pub bound: bool,
}

/// A match arm of the generated code.
#[derive(Debug)]
pub struct Arm {
    pub variant: String,
    pub shape: Shape,
    pub pattern: Vec<Binding>,
    pub calls: Vec<Call>,
}

impl Fields {
    /// How a pattern names them.
    pub open spec fn shape(self) -> Shape {
        match self {
            Fields::Named(_) => Shape::Named,
            Fields::Unnamed(_) => Shape::Unnamed,
            Fields::Unit => Shape::Unit,
        }
    }

    /// The fields in order.
    pub open spec fn list(self) -> Seq<Field> {
        match self {
            Fields::Named(list) => list@,
            Fields::Unnamed(list) => list@,
            Fields::Unit => Seq::empty(),
        }
    }

    /// The calls for the fields of a variant, or of a struct.
    pub open spec fn stmts(self, in_struct: bool) -> Result<Seq<CallView>, DeriveError> {
        stmts_upto(
            self.list(),
            in_struct,
            self.shape() == Shape::Named,
            self.list().len() as int,
        )
    }
}

/// The arm belongs to the variant: its pattern lists the fields in order and binds those that are
/// not skipped, and its calls are those of the variant's fields.
pub open spec fn arm_for(arm: Arm, v: Variant) -> bool {
    &&& arm.variant@ == v.name@
    &&& arm.shape == v.fields.shape()
    &&& arm.pattern@.len() == v.fields.list().len()
    &&& forall|i: int|
        0 <= i < arm.pattern@.len() ==> (#[trigger] arm.pattern@[i]).name@
            == v.fields.list()[i].name@ && arm.pattern@[i].bound == (spec_field_kind(
            v.fields.list()[i].attrs@,
        ) != Ok::<KindView, DeriveError>(KindView::Skip))
    &&& v.fields.stmts(false) == Ok::<Seq<CallView>, DeriveError>(calls(arm.calls@))
}

/// The pattern for the fields of a variant.
fn pattern_of(fields: &Vec<Field>, bound: &Vec<bool>) -> (r: Vec<Binding>)
    requires
        bound@.len() == fields@.len(),
    ensures
        r@.len() == fields@.len(),
        forall|i: int|
            0 <= i < r@.len() ==> (#[trigger] r@[i]).name@ == fields@[i].name@ && r@[i].bound
                == bound@[i],
{
    let mut out: Vec<Binding> = Vec::new();
    let mut i: usize = 0;
    while i < fields.len()
        invariant
            i <= fields@.len(),
            bound@.len() == fields@.len(),
            out@.len() == i,
            forall|k: int|
                0 <= k < i ==> (#[trigger] out@[k]).name@ == fields@[k].name@ && out@[k].bound
                    == bound@[k],
        decreases fields@.len() - i,
    {
        out.push(Binding { name: fields[i].name.clone(), bound: bound[i] });
        i = i + 1;
    }
    out
}

/// The match arm for a variant. Fields that are skipped are matched by an underscore.
pub fn variant_arm(v: &Variant) -> (r: Result<Arm, DeriveError>)
    ensures
        match r {
            Ok(arm) => arm_for(arm, *v),
            Err(e) => v.fields.stmts(false) == Err::<Seq<CallView>, DeriveError>(e),
        },
{
    match &v.fields {
        Fields::Named(fields) => {
            match field_stmts(fields, false, true) {
                Ok((list, bound)) => Ok(
                    Arm {
                        variant: v.name.clone(),
                        shape: Shape::Named,
                        pattern: pattern_of(fields, &bound),
                        calls: list,
                    },
                ),
                Err(e) => Err(e),
            }
        },
        Fields::Unnamed(fields) => {
            match field_stmts(fields, false, false) {
                Ok((list, bound)) => Ok(
                    Arm {
                        variant: v.name.clone(),
                        shape: Shape::Unnamed,
                        pattern: pattern_of(fields, &bound),
                        calls: list,
                    },
                ),
                Err(e) => Err(e),
            }
        },
        Fields::Unit => {
            let list: Vec<Call> = Vec::new();
            assert(calls(list@) =~= Seq::<CallView>::empty());
            Ok(
                Arm {
                    variant: v.name.clone(),
                    shape: Shape::Unit,
                    pattern: Vec::new(),
                    calls: list,
                },
            )
        },
    }
}

/// The body of the generated function.
#[derive(Debug)]
pub enum Body {
    /// The calls, one after the other.
    Calls(Vec<Call>),
    /// A match on the variants.
    Match(Vec<Arm>),
}

/// The generated implementation.
#[derive(Debug)]
pub struct TraceImpl {
    pub name: String,
    pub params: Vec<Param>,
    pub body: Body,
}

/// The bound that type parameters get.
pub open spec fn trace_bound() -> Seq<char> {
    "::gc_lite::GcTrace"@
}

/// The parameter with the bound that makes it traceable, if it stands for a type.
pub open spec fn bounded(p: Param, q: Param) -> bool {
    &&& q.name@ == p.name@
    &&& q.is_type == p.is_type
    &&& q.bounds@.len() == p.bounds@.len() + (if p.is_type { 1int } else { 0 })
    &&& forall|i: int| 0 <= i < p.bounds@.len() ==> (#[trigger] q.bounds@[i])@ == p.bounds@[i]@
    &&& p.is_type ==> q.bounds@.last()@ == trace_bound()
}

/// The first error among the first `n` variants, if there is one.
pub open spec fn variants_error(list: Seq<Variant>, n: int) -> Option<DeriveError>
    decreases n,
{
    if n <= 0 {
        None
    } else {
        match variants_error(list, n - 1) {
            Some(e) => Some(e),
            None => match list[n - 1].fields.stmts(false) {
                Ok(_) => None,
                Err(e) => Some(e),
            },
        }
    }
}

proof fn lemma_variants_error(list: Seq<Variant>, n: int, m: int)
    requires
        0 <= n <= m,
        variants_error(list, n) is Some,
    ensures
        variants_error(list, m) == variants_error(list, n),
    decreases m,
{
    if n < m {
        lemma_variants_error(list, n, m - 1);
    }
}

/// Why no tracing code is generated for the type, if none is.
pub open spec fn derive_error(data: Data) -> Option<DeriveError> {
    match data {
        Data::Union => Some(DeriveError::Union),
        Data::Struct(fields) => match fields.stmts(true) {
            Ok(_) => None,
            Err(e) => Some(e),
        },
        Data::Enum(list) => variants_error(list@, list@.len() as int),
    }
}

/// The body traces the data: in a struct with the calls for its fields, in an enum with one arm
/// for every variant, in order.
pub open spec fn body_for(body: Body, data: Data) -> bool {
    match data {
        Data::Struct(fields) => {
            &&& body matches Body::Calls(list)
            &&& fields.stmts(true) == Ok::<Seq<CallView>, DeriveError>(calls(list@))
        },
        Data::Enum(variants) => {
            &&& body matches Body::Match(arms)
            &&& arms@.len() == variants@.len()
            &&& forall|i: int|
                0 <= i < arms@.len() ==> arm_for(#[trigger] arms@[i], variants@[i])
        },
        Data::Union => false,
    }
}

fn with_bounds(params: &Vec<Param>) -> (r: Vec<Param>)
    ensures
        r@.len() == params@.len(),
        forall|i: int| 0 <= i < r@.len() ==> bounded(params@[i], #[trigger] r@[i]),
{
    let mut out: Vec<Param> = Vec::new();
    let mut i: usize = 0;
    while i < params.len()
        invariant
            i <= params@.len(),
            out@.len() == i,
            forall|k: int| 0 <= k < i ==> bounded(params@[k], #[trigger] out@[k]),
        decreases params@.len() - i,
    {
        let p: &Param = &params[i];
        let mut bounds: Vec<String> = Vec::new();
        let mut j: usize = 0;
        while j < p.bounds.len()
            invariant
                j <= p.bounds@.len(),
                bounds@.len() == j,
                forall|k: int| 0 <= k < j ==> (#[trigger] bounds@[k])@ == p.bounds@[k]@,
            decreases p.bounds@.len() - j,
        {
            bounds.push(p.bounds[j].clone());
            j = j + 1;
        }
        if p.is_type {
            bounds.push("::gc_lite::GcTrace".to_owned());
        }
        out.push(Param { name: p.name.clone(), is_type: p.is_type, bounds });
        i = i + 1;
    }
    out
}

/// The tracing code of a type. Unions are refused, and type parameters get a bound that makes
/// them traceable.
pub fn expand_gc_trace(input: &DeriveInput) -> (r: Result<TraceImpl, DeriveError>)
    ensures
        match r {
            Ok(t) => {
                &&& derive_error(input.data) is None
                &&& t.name@ == input.name@
                &&& t.params@.len() == input.params@.len()
                &&& forall|i: int|
                    0 <= i < t.params@.len() ==> bounded(
                        input.params@[i],
                        #[trigger] t.params@[i],
                    )
                &&& body_for(t.body, input.data)
            },
            Err(e) => derive_error(input.data) == Some(e),
        },
{
    let body: Body = match &input.data {
        Data::Union => {
            return Err(DeriveError::Union);
        },
        Data::Struct(Fields::Named(fields)) => {
            match named_field_stmts(fields) {
                Ok(list) => Body::Calls(list),
                Err(e) => {
                    return Err(e);
                },
            }
        },
        Data::Struct(Fields::Unnamed(fields)) => {
            match unnamed_field_stmts(fields) {
                Ok(list) => Body::Calls(list),
                Err(e) => {
                    return Err(e);
                },
            }
        },
        Data::Struct(Fields::Unit) => {
            let list: Vec<Call> = Vec::new();
            assert(calls(list@) =~= Seq::<CallView>::empty());
            Body::Calls(list)
        },
        Data::Enum(variants) => {
            let mut arms: Vec<Arm> = Vec::new();
            let mut i: usize = 0;
            while i < variants.len()
                invariant
                    i <= variants@.len(),
                    input.data == Data::Enum(*variants),
                    arms@.len() == i,
                    variants_error(variants@, i as int) is None,
                    forall|k: int| 0 <= k < i ==> arm_for(#[trigger] arms@[k], variants@[k]),
                decreases variants@.len() - i,
            {
                match variant_arm(&variants[i]) {
                    Ok(arm) => {
                        arms.push(arm);
                    },
                    Err(e) => {
                        proof {
                            lemma_variants_error(variants@, i + 1, variants@.len() as int);
                        }
                        return Err(e);
                    },
                }
                i = i + 1;
            }
            Body::Match(arms)
        },
    };
    Ok(TraceImpl { name: input.name.clone(), params: with_bounds(&input.params), body })
}

/// No field is passed over in silence: in the code of a struct, each field that is not skipped is
/// traced by exactly one call, in the order of the fields.
pub proof fn law_every_field_traced(fields: Seq<Field>, in_struct: bool, named: bool, n: int)
    requires
        0 <= n <= fields.len(),
        stmts_upto(fields, in_struct, named, n) is Ok,
    ensures
        forall|i: int|
            0 <= i < n ==> spec_field_kind((#[trigger] fields[i]).attrs@) is Ok,
        stmts_upto(fields, in_struct, named, n).unwrap().len() == kept(fields, n),
        forall|i: int|
            #![trigger fields[i]]
            0 <= i < n && spec_field_kind(fields[i].attrs@) != Ok::<KindView, DeriveError>(
                KindView::Skip,
            ) ==> 0 <= kept(fields, i) < kept(fields, n) && Some(
                stmts_upto(fields, in_struct, named, n).unwrap()[kept(fields, i)],
            ) == call_of(
                spec_field_kind(fields[i].attrs@).unwrap(),
                target_of(in_struct, named, fields[i].name@, i),
            ),
    decreases n,
{
    if n > 0 {
        law_every_field_traced(fields, in_struct, named, n - 1);
        lemma_kept_grows(fields, n - 1);
        assert forall|i: int|
            #![trigger fields[i]]
            0 <= i < n && spec_field_kind(fields[i].attrs@) != Ok::<KindView, DeriveError>(
                KindView::Skip,
            ) implies 0 <= kept(fields, i) < kept(fields, n) && Some(
            stmts_upto(fields, in_struct, named, n).unwrap()[kept(fields, i)],
        ) == call_of(
            spec_field_kind(fields[i].attrs@).unwrap(),
            target_of(in_struct, named, fields[i].name@, i),
        ) by {
            if i == n - 1 {
                assert(kept(fields, n) == kept(fields, n - 1) + 1);
            }
        }
    }
}

/// Number of fields among the first `n` that are not skipped.
pub open spec fn kept(fields: Seq<Field>, n: int) -> int
    decreases n,
{
    if n <= 0 {
        0
    } else if spec_field_kind(fields[n - 1].attrs@) == Ok::<KindView, DeriveError>(
        KindView::Skip,
    ) {
        kept(fields, n - 1)
    } else {
        kept(fields, n - 1) + 1
    }
}

proof fn lemma_kept_grows(fields: Seq<Field>, n: int)
    ensures
        0 <= kept(fields, n),
    decreases n,
{
    if n > 0 {
        lemma_kept_grows(fields, n - 1);
    }
}

} // verus!

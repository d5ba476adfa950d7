//! What the generated tracing code does with the fields of a type.

use vstd::prelude::*;

use crate::codegen::derive::{
    arm_for, body_for, calls, derive_error, kept, kind_after, kind_of_attrs, kind_upto,
    law_every_field_traced, metas, names_path, spec_field_kind, stmts_upto, Arm, Attribute, Body,
    CallView, Data, DeriveError, Field, Fields, KindView, MetaView, Shape, TargetView, Variant,
};
use crate::codegen::syntax::path_text;

verus! {

/// All items of the `gc` attributes among the first `n`, in order.
pub open spec fn gc_items(attrs: Seq<Attribute>, n: int) -> Seq<MetaView>
    decreases n,
{
    if n <= 0 {
        Seq::empty()
    } else if attrs[n - 1].name@ == "gc"@ {
        gc_items(attrs, n - 1) + Seq::new(attrs[n - 1].args@.len(), |i: int| attrs[n - 1].args@[i]@)
    } else {
        gc_items(attrs, n - 1)
    }
}

/// The item is `skip`.
pub open spec fn says_skip(item: MetaView) -> bool {
    item == MetaView::Flag("skip"@)
}

/// The item is `with = "path"`.
pub open spec fn says_with(item: MetaView) -> bool {
    item matches MetaView::Value(key, Some(text)) && key == "with"@ && path_text(text)
}

/// The item has a key that is neither `skip` nor `with`.
pub open spec fn strange(item: MetaView) -> bool {
    match item {
        MetaView::Flag(key) => key != "skip"@ && key != "with"@,
        MetaView::Value(key, _) => key != "skip"@ && key != "with"@,
        MetaView::Broken => false,
    }
}

/// What is wrong with an item that is neither `skip` nor `with = "path"`: an unknown key is called
/// so, a second `skip` with a value is a duplicate, and all else is malformed.
pub open spec fn fault(item: MetaView, first: bool) -> DeriveError {
    if strange(item) {
        DeriveError::UnknownKey
    } else if !first && (item matches MetaView::Value(key, _) && key == "skip"@) {
        DeriveError::Duplicate
    } else {
        DeriveError::Syntax
    }
}

proof fn lemma_words()
    ensures
        "skip"@ != "with"@,
{
    reveal_strlit("skip");
    reveal_strlit("with");
    assert("skip"@[0] != "with"@[0]);
}

/// What one item says: `skip` and `with` are understood once, and never after another item.
pub proof fn law_one_item(state: Option<KindView>, item: MetaView)
    ensures
        ({
            let r = kind_after(state, item, names_path(item));
            &&& says_skip(item) && state is None ==> r == Ok::<KindView, DeriveError>(
                KindView::Skip,
            )
            &&& says_with(item) && state is None ==> {
                &&& r is Ok
                &&& item matches MetaView::Value(_, Some(text)) && r.unwrap() == KindView::With(text)
            }
            &&& (says_skip(item) || says_with(item)) && state is Some ==> r == Err::<
                KindView,
                DeriveError,
            >(DeriveError::Duplicate)
            &&& !says_skip(item) && !says_with(item) ==> r == Err::<KindView, DeriveError>(
                fault(item, state is None),
            )
        }),
{
    lemma_words();
}

proof fn lemma_upto_concat(state: Option<KindView>, a: Seq<MetaView>, b: Seq<MetaView>, n: int)
    requires
        0 <= n <= b.len(),
    ensures
        kind_upto(state, a + b, a.len() + n) == match kind_upto(state, a, a.len() as int) {
            Err(e) => Err(e),
            Ok(s) => kind_upto(s, b, n),
        },
    decreases n,
{
    if n == 0 {
        lemma_upto_front(state, a, b, a.len() as int);
    } else {
        lemma_upto_concat(state, a, b, n - 1);
        assert((a + b)[a.len() + n - 1] == b[n - 1]);
        assert(a.len() + n - 1 >= 0);
    }
}

proof fn lemma_upto_front(state: Option<KindView>, a: Seq<MetaView>, b: Seq<MetaView>, n: int)
    requires
        n <= a.len(),
    ensures
        kind_upto(state, a + b, n) == kind_upto(state, a, n),
    decreases n,
{
    if n > 0 {
        lemma_upto_front(state, a, b, n - 1);
        assert((a + b)[n - 1] == a[n - 1]);
    }
}

/// The attributes of a field say what their items say, one after the other.
proof fn lemma_flat(attrs: Seq<Attribute>, n: int)
    requires
        0 <= n <= attrs.len(),
    ensures
        kind_of_attrs(attrs, n) == kind_upto(
            None,
            gc_items(attrs, n),
            gc_items(attrs, n).len() as int,
        ),
    decreases n,
{
    if n > 0 {
        lemma_flat(attrs, n - 1);
        let a = gc_items(attrs, n - 1);
        if attrs[n - 1].name@ == "gc"@ {
            let b = Seq::new(attrs[n - 1].args@.len(), |i: int| attrs[n - 1].args@[i]@);
            assert(b =~= metas(attrs[n - 1].args@));
            lemma_upto_concat(None, a, b, b.len() as int);
        }
    }
}

/// Once an item was understood, no other one is.
proof fn lemma_second_fails(items: Seq<MetaView>, n: int)
    requires
        2 <= n <= items.len(),
    ensures
        ({
            let first = kind_upto(None, items, 1);
            let all = kind_upto(None, items, n);
            &&& all is Err
            &&& first is Err ==> all == first
            &&& first is Ok ==> all == Err::<Option<KindView>, DeriveError>(
                if says_skip(items[1]) || says_with(items[1]) {
                    DeriveError::Duplicate
                } else {
                    fault(items[1], false)
                },
            )
        }),
    decreases n,
{
    reveal_with_fuel(kind_upto, 3);
    law_one_item(None, items[0]);
    if n == 2 {
        match kind_upto(None, items, 1) {
            Ok(s) => {
                law_one_item(s, items[1]);
            },
            Err(e) => {},
        }
    } else {
        lemma_second_fails(items, n - 1);
    }
}

/// What is emitted for a field, from all items of its `gc` attributes: a plain call if there are
/// none; nothing for a single `skip`; a call of the named function for a single `with`. Any other
/// field is refused, for its first item that cannot be understood.
pub proof fn law_field_kind(attrs: Seq<Attribute>)
    ensures
        ({
            let items = gc_items(attrs, attrs.len() as int);
            let r = spec_field_kind(attrs);
            &&& r == Ok::<KindView, DeriveError>(KindView::Trace) <==> items.len() == 0
            &&& r == Ok::<KindView, DeriveError>(KindView::Skip) <==> items.len() == 1 && says_skip(
                items[0],
            )
            &&& (r matches Ok(KindView::With(_))) <==> items.len() == 1 && says_with(items[0])
            &&& r matches Ok(KindView::With(path)) ==> items[0] == MetaView::Value(
                "with"@,
                Some(path),
            )
            &&& items.len() > 0 && !says_skip(items[0]) && !says_with(items[0]) ==> r == Err::<
                KindView,
                DeriveError,
            >(fault(items[0], true))
            &&& items.len() > 1 && (says_skip(items[0]) || says_with(items[0])) ==> r == Err::<
                KindView,
                DeriveError,
            >(
                if says_skip(items[1]) || says_with(items[1]) {
                    DeriveError::Duplicate
                } else {
                    fault(items[1], false)
                },
            )
        }),
{
    let items = gc_items(attrs, attrs.len() as int);
    let r = spec_field_kind(attrs);
    lemma_flat(attrs, attrs.len() as int);
    lemma_words();
    reveal_with_fuel(kind_upto, 3);
    if items.len() > 0 {
        law_one_item(None, items[0]);
        if items.len() > 1 {
            lemma_second_fails(items, items.len() as int);
        }
    }
}

/// The call that is emitted for the field at position `i`: of its own tracing function, or of the
/// function that it names. It is handed that field and no other: by its name, by its position, or
/// by what the pattern has bound to that name or for that position.
pub open spec fn call_hands(c: CallView, f: Field, i: int, in_struct: bool, named: bool) -> bool {
    &&& match spec_field_kind(f.attrs@) {
        Ok(KindView::Trace) => c.path is None,
        Ok(KindView::With(path)) => c.path == Some(path),
        _ => false,
    }
    &&& match c.target {
        TargetView::Named(name) => in_struct && named && name == f.name@,
        TargetView::Index(k) => in_struct && !named && k == i,
        TargetView::Binding(name) => !in_struct && named && name == f.name@,
        TargetView::Slot(k) => !in_struct && !named && k == i,
    }
}

/// Two different fields, whose names differ if they have names, are never handed to the same call
/// target; and every field that is not skipped is handed to one call, its own.
pub proof fn law_calls(fields: Seq<Field>, in_struct: bool, named: bool, i: int, j: int)
    requires
        stmts_upto(fields, in_struct, named, fields.len() as int) is Ok,
        0 <= i < j < fields.len(),
        spec_field_kind(fields[i].attrs@) != Ok::<KindView, DeriveError>(KindView::Skip),
        spec_field_kind(fields[j].attrs@) != Ok::<KindView, DeriveError>(KindView::Skip),
    ensures
        ({
            let list = stmts_upto(fields, in_struct, named, fields.len() as int).unwrap();
            let a = kept(fields, i);
            let b = kept(fields, j);
            &&& 0 <= a < b < list.len()
            &&& call_hands(list[a], fields[i], i, in_struct, named)
            &&& call_hands(list[b], fields[j], j, in_struct, named)
            &&& named && fields[i].name@ == fields[j].name@ || list[a].target != list[b].target
        }),
{
    let n = fields.len() as int;
    law_every_field_traced(fields, in_struct, named, n);
    law_field_kind(fields[i].attrs@);
    law_field_kind(fields[j].attrs@);
    lemma_kept_increases(fields, i, j);
}

proof fn lemma_kept_increases(fields: Seq<Field>, i: int, j: int)
    requires
        0 <= i < j <= fields.len(),
        spec_field_kind(fields[i].attrs@) != Ok::<KindView, DeriveError>(KindView::Skip),
    ensures
        0 <= kept(fields, i) < kept(fields, j),
    decreases j,
{
    if j == i + 1 {
        lemma_kept_bounds(fields, i);
    } else {
        lemma_kept_increases(fields, i, j - 1);
    }
}

proof fn lemma_kept_bounds(fields: Seq<Field>, n: int)
    ensures
        0 <= kept(fields, n),
        n >= 0 ==> kept(fields, n) <= n,
    decreases n,
{
    if n > 0 {
        lemma_kept_bounds(fields, n - 1);
    }
}

/// The calls for the fields of a struct or variant, taken together: each hands on one field that
/// is not skipped, in the order of the fields, and each such field is handed on.
pub open spec fn calls_cover(
    list: Seq<CallView>,
    fields: Seq<Field>,
    in_struct: bool,
    named: bool,
) -> bool {
    exists|at: Seq<int>|
        {
            &&& at.len() == list.len()
            &&& forall|a: int, b: int|
                0 <= a < b < at.len() ==> #[trigger] at[a] < #[trigger] at[b]
            &&& forall|a: int|
                0 <= a < at.len() ==> 0 <= #[trigger] at[a] < fields.len() && call_hands(
                    list[a],
                    fields[at[a]],
                    at[a],
                    in_struct,
                    named,
                )
            &&& forall|i: int|
                #![trigger fields[i]]
                0 <= i < fields.len() && !at.contains(i) ==> spec_field_kind(fields[i].attrs@)
                    == Ok::<KindView, DeriveError>(KindView::Skip)
        }
}

/// No field is passed over: the calls cover the fields. An error comes if and only if some field
/// is refused, and it is that of the first one.
pub proof fn law_fields_covered(fields: Seq<Field>, in_struct: bool, named: bool)
    ensures
        ({
            let r = stmts_upto(fields, in_struct, named, fields.len() as int);
            &&& r matches Ok(list) ==> calls_cover(list, fields, in_struct, named)
            &&& r is Ok <==> forall|i: int|
                0 <= i < fields.len() ==> spec_field_kind((#[trigger] fields[i]).attrs@) is Ok
            &&& r matches Err(e) ==> exists|i: int|
                0 <= i < fields.len() && spec_field_kind((#[trigger] fields[i]).attrs@) == Err::<
                    KindView,
                    DeriveError,
                >(e) && forall|k: int|
                    0 <= k < i ==> spec_field_kind((#[trigger] fields[k]).attrs@) is Ok
        }),
{
    lemma_covered(fields, in_struct, named, fields.len() as int);
    assert(fields.take(fields.len() as int) =~= fields);
}

proof fn lemma_covered(fields: Seq<Field>, in_struct: bool, named: bool, n: int)
    requires
        0 <= n <= fields.len(),
    ensures
        ({
            let r = stmts_upto(fields, in_struct, named, n);
            &&& r matches Ok(list) ==> calls_cover(list, fields.take(n), in_struct, named)
            &&& r is Ok <==> forall|i: int|
                0 <= i < n ==> spec_field_kind((#[trigger] fields[i]).attrs@) is Ok
            &&& r matches Err(e) ==> exists|i: int|
                0 <= i < n && spec_field_kind((#[trigger] fields[i]).attrs@) == Err::<
                    KindView,
                    DeriveError,
                >(e) && forall|k: int|
                    0 <= k < i ==> spec_field_kind((#[trigger] fields[k]).attrs@) is Ok
        }),
    decreases n,
{
    let r = stmts_upto(fields, in_struct, named, n);
    if n == 0 {
        let at = Seq::<int>::empty();
        assert(at.len() == 0);
        assert(calls_cover(Seq::empty(), fields.take(0), in_struct, named));
    } else {
        lemma_covered(fields, in_struct, named, n - 1);
        let f = fields[n - 1];
        law_field_kind(f.attrs@);
        let before = stmts_upto(fields, in_struct, named, n - 1);
        let prev = fields.take(n - 1);
        let now = fields.take(n);
        if before is Err {
            let i = choose|i: int|
                0 <= i < n - 1 && spec_field_kind((#[trigger] fields[i]).attrs@) == Err::<
                    KindView,
                    DeriveError,
                >(before->Err_0) && forall|k: int|
                    0 <= k < i ==> spec_field_kind((#[trigger] fields[k]).attrs@) is Ok;
            assert(spec_field_kind(fields[i].attrs@) is Err);
        } else if spec_field_kind(f.attrs@) is Err {
            assert(spec_field_kind(fields[n - 1].attrs@) is Err);
        } else {
            let list = before.unwrap();
            let at = choose|at: Seq<int>|
                {
                    &&& at.len() == list.len()
                    &&& forall|a: int, b: int|
                        0 <= a < b < at.len() ==> #[trigger] at[a] < #[trigger] at[b]
                    &&& forall|a: int|
                        0 <= a < at.len() ==> 0 <= #[trigger] at[a] < prev.len() && call_hands(
                            list[a],
                            prev[at[a]],
                            at[a],
                            in_struct,
                            named,
                        )
                    &&& forall|i: int|
                        #![trigger prev[i]]
                        0 <= i < prev.len() && !at.contains(i) ==> spec_field_kind(prev[i].attrs@)
                            == Ok::<KindView, DeriveError>(KindView::Skip)
                };
            let all = r.unwrap();
            let skipped = spec_field_kind(f.attrs@) == Ok::<KindView, DeriveError>(KindView::Skip);
            let more = if skipped {
                at
            } else {
                at.push(n - 1)
            };
            assert forall|a: int| 0 <= a < more.len() implies 0 <= #[trigger] more[a] < now.len()
                && call_hands(all[a], now[more[a]], more[a], in_struct, named) by {
                if a < at.len() {
                    assert(more[a] == at[a]);
                    assert(prev[at[a]] == now[at[a]]);
                }
            }
            assert forall|i: int|
                #![trigger now[i]]
                0 <= i < now.len() && !more.contains(i) implies spec_field_kind(now[i].attrs@)
                == Ok::<KindView, DeriveError>(KindView::Skip) by {
                if i < n - 1 {
                    assert(prev[i] == now[i]);
                    if at.contains(i) {
                        let k = choose|k: int| 0 <= k < at.len() && at[k] == i;
                        assert(more[k] == i);
                    }
                } else if !skipped {
                    assert(more[at.len() as int] == n - 1);
                }
            }
            assert(calls_cover(all, now, in_struct, named));
        }
    }
}

/// A match arm: its pattern lists the fields of its variant in order and binds exactly those that
/// are not skipped, and its calls hand each of these on once, by what the pattern has bound.
pub proof fn law_arm(arm: Arm, v: Variant, i: int)
    requires
        arm_for(arm, v),
    ensures
        arm.variant@ == v.name@,
        v.fields matches Fields::Named(list) ==> arm.shape == Shape::Named && arm.pattern@.len()
            == list@.len() && calls_cover(calls(arm.calls@), list@, false, true),
        v.fields matches Fields::Unnamed(list) ==> arm.shape == Shape::Unnamed && arm.pattern@.len()
            == list@.len() && calls_cover(calls(arm.calls@), list@, false, false),
        v.fields is Unit ==> arm.shape == Shape::Unit && arm.pattern@.len() == 0
            && arm.calls@.len() == 0,
        v.fields matches Fields::Named(list) ==> (0 <= i < list@.len() ==> arm.pattern@[i].name@
            == list@[i].name@ && (arm.pattern@[i].bound <==> spec_field_kind(list@[i].attrs@)
            != Ok::<KindView, DeriveError>(KindView::Skip))),
        v.fields matches Fields::Unnamed(list) ==> (0 <= i < list@.len() ==> (arm.pattern@[i].bound
            <==> spec_field_kind(list@[i].attrs@) != Ok::<KindView, DeriveError>(KindView::Skip))),
{
    match v.fields {
        Fields::Named(list) => {
            law_fields_covered(list@, false, true);
            if 0 <= i < list@.len() {
                assert(arm.pattern@[i].name@ == list@[i].name@);
            }
        },
        Fields::Unnamed(list) => {
            law_fields_covered(list@, false, false);
            if 0 <= i < list@.len() {
                assert(arm.pattern@[i].name@ == list@[i].name@);
            }
        },
        Fields::Unit => {
            assert(calls(arm.calls@).len() == 0);
        },
    }
}

/// The body of the generated function: the calls of a struct cover its fields, and an enum has an
/// arm for every variant, in order. There is none for a union.
pub proof fn law_body(body: Body, data: Data, k: int)
    requires
        body_for(body, data),
    ensures
        !(data is Union),
        data matches Data::Struct(Fields::Named(fields)) ==> body matches Body::Calls(list)
            && calls_cover(calls(list@), fields@, true, true),
        data matches Data::Struct(Fields::Unnamed(fields)) ==> body matches Body::Calls(list)
            && calls_cover(calls(list@), fields@, true, false),
        data matches Data::Struct(Fields::Unit) ==> body matches Body::Calls(list) && list@.len()
            == 0,
        data matches Data::Enum(variants) ==> body matches Body::Match(arms) && arms@.len()
            == variants@.len() && (0 <= k < arms@.len() ==> arm_for(arms@[k], variants@[k])),
{
    match data {
        Data::Struct(Fields::Named(fields)) => {
            law_fields_covered(fields@, true, true);
        },
        Data::Struct(Fields::Unnamed(fields)) => {
            law_fields_covered(fields@, true, false);
        },
        Data::Struct(Fields::Unit) => {
            match body {
                Body::Calls(list) => {
                    assert(calls(list@).len() == 0);
                },
                Body::Match(arms) => {},
            }
        },
        _ => {},
    }
}

/// The fields are refused: some field is.
pub open spec fn some_field_refused(fields: Seq<Field>) -> bool {
    exists|i: int| 0 <= i < fields.len() && spec_field_kind((#[trigger] fields[i]).attrs@) is Err
}

/// Tracing code is refused for unions, and else exactly for types with a field that is refused.
pub proof fn law_refused(data: Data)
    ensures
        data is Union ==> derive_error(data) == Some(DeriveError::Union),
        data matches Data::Struct(fields) ==> (derive_error(data) is Some <==> some_field_refused(
            fields.list(),
        )),
        data matches Data::Enum(variants) ==> (derive_error(data) is Some <==> exists|k: int|
            0 <= k < variants@.len() && some_field_refused(
                (#[trigger] variants@[k]).fields.list(),
            )),
{
    match data {
        Data::Struct(fields) => {
            lemma_refused(fields, true);
        },
        Data::Enum(variants) => {
            lemma_variants_refused(variants@, variants@.len() as int);
        },
        Data::Union => {},
    }
}

proof fn lemma_refused(fields: Fields, in_struct: bool)
    ensures
        fields.stmts(in_struct) is Err <==> some_field_refused(fields.list()),
{
    law_fields_covered(fields.list(), in_struct, fields.shape() == Shape::Named);
    if some_field_refused(fields.list()) {
        let i = choose|i: int|
            0 <= i < fields.list().len() && spec_field_kind(
                (#[trigger] fields.list()[i]).attrs@,
            ) is Err;
        assert(!(spec_field_kind(fields.list()[i].attrs@) is Ok));
    }
}

proof fn lemma_variants_refused(list: Seq<Variant>, n: int)
    requires
        0 <= n <= list.len(),
    ensures
        crate::codegen::derive::variants_error(list, n) is Some <==> exists|k: int|
            0 <= k < n && some_field_refused((#[trigger] list[k]).fields.list()),
    decreases n,
{
    if n > 0 {
        lemma_variants_refused(list, n - 1);
        lemma_refused(list[n - 1].fields, false);
        if crate::codegen::derive::variants_error(list, n - 1) is Some {
            let k = choose|k: int|
                0 <= k < n - 1 && some_field_refused((#[trigger] list[k]).fields.list());
            assert(some_field_refused(list[k].fields.list()));
        }
        if some_field_refused(list[n - 1].fields.list()) {
            assert(0 <= n - 1 < n);
        }
    }
}

} // verus!

use gc_lite::codegen::derive::{
    expand_gc_trace, Attribute, Body, Call, Data, DeriveInput, Field, Fields, Meta, Param, Target,
    TraceImpl, Variant,
};
use gc_lite::{
    GcHeap, GcNode, GcPartitionId, GcRef, GcTrace, GcTraceCtx, GcTypeInfo, GcTypeRegistry,
};
use smallvec::SmallVec;

/// A node with one reference.
#[derive(Debug)]
struct Inner {
    next: Option<GcRef<Any>>,
    #[allow(dead_code)]
    value: u32,
}

impl GcTrace for Inner {
    fn trace(&self, gcx: &mut GcTraceCtx) {
        GcTrace::trace(&self.next, gcx);
        GcTrace::trace(&self.value, gcx);
    }
}

/// Fields of many kinds, one of them left out.
#[derive(Debug)]
struct Root {
    chain: Option<GcRef<Any>>,
    list: Vec<GcRef<Any>>,
    label: String,
    nums: [u8; 4],
    tag: Option<String>,
    pair: (u32, String),
    #[allow(dead_code)]
    raw: usize,
}

impl GcTrace for Root {
    fn trace(&self, gcx: &mut GcTraceCtx) {
        GcTrace::trace(&self.chain, gcx);
        GcTrace::trace(&self.list, gcx);
        GcTrace::trace(&self.label, gcx);
        GcTrace::trace(&self.nums, gcx);
        GcTrace::trace(&self.tag, gcx);
        GcTrace::trace(&self.pair, gcx);
    }
}

/// A container of another crate, traced by a function of its own.
#[derive(Debug)]
struct WithBag {
    items: SmallVec<[GcRef<Any>; 2]>,
}

fn trace_smallvec(v: &SmallVec<[GcRef<Any>; 2]>, gcx: &mut GcTraceCtx) {
    v.as_slice().trace(gcx);
}

impl GcTrace for WithBag {
    fn trace(&self, gcx: &mut GcTraceCtx) {
        trace_smallvec(&self.items, gcx);
    }
}

#[derive(Debug)]
struct Pair(GcRef<Any>, #[allow(dead_code)] usize);

impl GcTrace for Pair {
    fn trace(&self, gcx: &mut GcTraceCtx) {
        GcTrace::trace(&self.0, gcx);
    }
}

#[derive(Debug)]
enum Tree {
    Leaf(u32),
    Branch { left: GcRef<Any>, right: Option<GcRef<Any>> },
}

impl GcTrace for Tree {
    fn trace(&self, gcx: &mut GcTraceCtx) {
        match self {
            Self::Leaf(__field_0) => {
                GcTrace::trace(__field_0, gcx);
            }
            Self::Branch { left, right } => {
                GcTrace::trace(left, gcx);
                GcTrace::trace(right, gcx);
            }
        }
    }
}

#[derive(Debug)]
struct OwnedBag {
    items: Vec<Inner>,
    tag: String,
}

impl GcTrace for OwnedBag {
    fn trace(&self, gcx: &mut GcTraceCtx) {
        GcTrace::trace(&self.items, gcx);
        GcTrace::trace(&self.tag, gcx);
    }
}

#[derive(Debug)]
struct Wrap<T> {
    items: Vec<T>,
}

impl<T: GcTrace> GcTrace for Wrap<T> {
    fn trace(&self, gcx: &mut GcTraceCtx) {
        GcTrace::trace(&self.items, gcx);
    }
}

#[derive(Debug)]
struct SkipRoot {
    #[allow(dead_code)]
    hidden: Option<GcRef<Any>>,
    keep: u32,
}

impl GcTrace for SkipRoot {
    fn trace(&self, gcx: &mut GcTraceCtx) {
        GcTrace::trace(&self.keep, gcx);
    }
}

/// The payloads of the heap.
#[derive(Debug)]
enum Any {
    Inner(Inner),
    Root(Root),
    WithBag(WithBag),
    Pair(Pair),
    Tree(Tree),
    OwnedBag(OwnedBag),
    Wrap(Wrap<Inner>),
    SkipRoot(SkipRoot),
}

impl GcTrace for Any {
    fn trace(&self, gcx: &mut GcTraceCtx) {
        match self {
            Any::Inner(x) => x.trace(gcx),
            Any::Root(x) => x.trace(gcx),
            Any::WithBag(x) => x.trace(gcx),
            Any::Pair(x) => x.trace(gcx),
            Any::Tree(x) => x.trace(gcx),
            Any::OwnedBag(x) => x.trace(gcx),
            Any::Wrap(x) => x.trace(gcx),
            Any::SkipRoot(x) => x.trace(gcx),
        }
    }
}

impl GcNode for Any {
    fn gc_type_id(&self) -> u8 {
        match self {
            Any::Inner(_) => 0,
            Any::Root(_) => 1,
            Any::WithBag(_) => 2,
            Any::Pair(_) => 3,
            Any::Tree(_) => 4,
            Any::OwnedBag(_) => 5,
            Any::Wrap(_) => 6,
            Any::SkipRoot(_) => 7,
        }
    }
}

fn new_heap() -> (GcHeap<Any>, GcPartitionId) {
    let registry = GcTypeRegistry::new(vec![
        GcTypeInfo::of::<Inner>(std::mem::needs_drop::<Inner>(), 0),
        GcTypeInfo::of::<Root>(std::mem::needs_drop::<Root>(), 0),
        GcTypeInfo::of::<WithBag>(std::mem::needs_drop::<WithBag>(), 0),
        GcTypeInfo::of::<Pair>(std::mem::needs_drop::<Pair>(), 0),
        GcTypeInfo::of::<Tree>(std::mem::needs_drop::<Tree>(), 0),
        GcTypeInfo::of::<OwnedBag>(std::mem::needs_drop::<OwnedBag>(), 0),
        GcTypeInfo::of::<Wrap<Inner>>(std::mem::needs_drop::<Wrap<Inner>>(), 0),
        GcTypeInfo::of::<SkipRoot>(std::mem::needs_drop::<SkipRoot>(), 0),
    ]);
    let mut heap = GcHeap::new(registry, 1);
    let pid = heap.create_partition_with_arena(64 * 1024, 16 * 1024);
    (heap, pid)
}

fn count(heap: &GcHeap<Any>, pid: GcPartitionId) -> usize {
    heap.partition(pid).unwrap().nodes().len()
}

fn sweep(heap: &mut GcHeap<Any>, pid: GcPartitionId) -> usize {
    if let Some(white) = heap.sweep_unlink(pid) {
        let payloads = heap.sweep_drop_payloads(&white);
        drop(payloads);
        heap.sweep_dispose(pid, white)
    } else {
        panic!("the mark phase is not finished");
    }
}

fn collect(heap: &mut GcHeap<Any>, pid: GcPartitionId) {
    while !heap.mark(pid, 16) {}
    sweep(heap, pid);
}

fn inner(
    heap: &mut GcHeap<Any>,
    pid: GcPartitionId,
    next: Option<GcRef<Any>>,
    value: u32,
) -> GcRef<Any> {
    heap.alloc_raw(pid, Any::Inner(Inner { next, value })).unwrap()
}

#[test]
fn derived_trace_keeps_graph_alive() {
    let (mut heap, pid) = new_heap();

    let c = inner(&mut heap, pid, None, 3);
    let b = inner(&mut heap, pid, Some(c), 2);
    let a = inner(&mut heap, pid, Some(b), 1);
    let _orphan = inner(&mut heap, pid, None, 99);

    let _root = heap
        .alloc_root_raw(
            pid,
            Any::Root(Root {
                chain: Some(a),
                list: vec![a, b, c],
                label: "root".into(),
                nums: [0; 4],
                tag: Some("t".into()),
                pair: (1, "p".into()),
                raw: 0,
            }),
        )
        .unwrap();

    assert_eq!(count(&heap, pid), 5);
    collect(&mut heap, pid);
    assert_eq!(count(&heap, pid), 4);
}

#[test]
fn skip_field_does_not_keep_alive() {
    let (mut heap, pid) = new_heap();

    let hidden = inner(&mut heap, pid, None, 7);
    let _root = heap
        .alloc_root_raw(pid, Any::SkipRoot(SkipRoot { hidden: Some(hidden), keep: 1 }))
        .unwrap();

    assert_eq!(count(&heap, pid), 2);
    collect(&mut heap, pid);
    assert_eq!(count(&heap, pid), 1, "a skipped field must not keep the hidden node alive");
}

#[test]
fn with_attribute_traces_foreign_container() {
    let (mut heap, pid) = new_heap();

    let i1 = inner(&mut heap, pid, None, 1);
    let i2 = inner(&mut heap, pid, None, 2);
    let _orphan = inner(&mut heap, pid, None, 99);

    let _root = heap
        .alloc_root_raw(pid, Any::WithBag(WithBag { items: SmallVec::from_vec(vec![i1, i2]) }))
        .unwrap();

    assert_eq!(count(&heap, pid), 4);
    collect(&mut heap, pid);
    assert_eq!(count(&heap, pid), 3);
}

#[test]
fn tuple_struct_traces_unnamed_fields() {
    let (mut heap, pid) = new_heap();

    let c = inner(&mut heap, pid, None, 5);
    let _orphan = inner(&mut heap, pid, None, 99);

    let _root = heap.alloc_root_raw(pid, Any::Pair(Pair(c, 42))).unwrap();

    assert_eq!(count(&heap, pid), 3);
    collect(&mut heap, pid);
    assert_eq!(count(&heap, pid), 2);
}

#[test]
fn enum_variants_are_traced() {
    let (mut heap, pid) = new_heap();

    let l1 = heap.alloc_raw(pid, Any::Tree(Tree::Leaf(1))).unwrap();
    let l2 = heap.alloc_raw(pid, Any::Tree(Tree::Leaf(2))).unwrap();
    let _orphan = heap.alloc_raw(pid, Any::Tree(Tree::Leaf(3))).unwrap();

    let _root = heap
        .alloc_root_raw(pid, Any::Tree(Tree::Branch { left: l1, right: Some(l2) }))
        .unwrap();

    assert_eq!(count(&heap, pid), 4);
    collect(&mut heap, pid);
    assert_eq!(count(&heap, pid), 3);
}

#[test]
fn by_value_container_fields_are_traced() {
    let (mut heap, pid) = new_heap();

    let deep = inner(&mut heap, pid, None, 11);
    let _orphan = inner(&mut heap, pid, None, 99);

    let _root = heap
        .alloc_root_raw(
            pid,
            Any::OwnedBag(OwnedBag {
                items: vec![Inner { next: Some(deep), value: 10 }],
                tag: "bag".into(),
            }),
        )
        .unwrap();

    assert_eq!(count(&heap, pid), 3);
    collect(&mut heap, pid);
    assert_eq!(count(&heap, pid), 2);
}

#[test]
fn generic_struct_derives_gc_trace_bound() {
    let (mut heap, pid) = new_heap();

    let held = inner(&mut heap, pid, None, 10);
    let _orphan = inner(&mut heap, pid, None, 99);

    let _root = heap
        .alloc_root_raw(
            pid,
            Any::Wrap(Wrap { items: vec![Inner { next: Some(held), value: 1 }] }),
        )
        .unwrap();

    assert_eq!(count(&heap, pid), 3);
    collect(&mut heap, pid);
    assert_eq!(count(&heap, pid), 2);
}

#[test]
fn repeated_gc_cycles_are_stable() {
    let (mut heap, pid) = new_heap();

    let c = inner(&mut heap, pid, None, 3);
    let b = inner(&mut heap, pid, Some(c), 2);
    let a = inner(&mut heap, pid, Some(b), 1);

    let _root = heap
        .alloc_root_raw(
            pid,
            Any::Root(Root {
                chain: Some(a),
                list: vec![a],
                label: "r".into(),
                nums: [0; 4],
                tag: None,
                pair: (0, String::new()),
                raw: 0,
            }),
        )
        .unwrap();

    for round in 0..3 {
        let _dead = inner(&mut heap, pid, None, 100 + round);
        collect(&mut heap, pid);
        assert_eq!(count(&heap, pid), 4, "round {round}");
    }
}

/// A call of the tracing code that is generated for a field.
fn line(c: &Call) -> String {
    let target = match &c.target {
        Target::Named(n) => format!("&self.{n}"),
        Target::Index(i) => format!("&self.{i}"),
        Target::Binding(n) => n.clone(),
        Target::Slot(i) => format!("__field_{i}"),
    };
    match &c.path {
        Some(p) => format!("{p}({target}, gcx);"),
        None => format!("GcTrace::trace({target}, gcx);"),
    }
}

fn derived(params: Vec<Param>, data: Data) -> TraceImpl {
    expand_gc_trace(&DeriveInput { name: "S".to_string(), params, data }).unwrap()
}

fn derived_calls(fields: Fields) -> Vec<String> {
    match derived(Vec::new(), Data::Struct(fields)).body {
        Body::Calls(list) => list.iter().map(line).collect(),
        Body::Match(_) => panic!("not a struct"),
    }
}

fn plain(names: &[&str]) -> Vec<Field> {
    names.iter().map(|n| Field { name: n.to_string(), attrs: Vec::new() }).collect()
}

fn marked(name: &str, arg: Meta) -> Field {
    let attr = Attribute { name: "gc".to_string(), args: vec![arg] };
    Field { name: name.to_string(), attrs: vec![attr] }
}

fn skipped(name: &str) -> Field {
    marked(name, Meta::Flag("skip".to_string()))
}

#[test]
fn the_derived_code_of_these_types_makes_the_same_calls() {
    assert_eq!(
        derived_calls(Fields::Named(plain(&["next", "value"]))),
        ["GcTrace::trace(&self.next, gcx);", "GcTrace::trace(&self.value, gcx);"]
    );

    let mut root = plain(&["chain", "list", "label", "nums", "tag", "pair"]);
    root.push(skipped("raw"));
    assert_eq!(
        derived_calls(Fields::Named(root)),
        [
            "GcTrace::trace(&self.chain, gcx);",
            "GcTrace::trace(&self.list, gcx);",
            "GcTrace::trace(&self.label, gcx);",
            "GcTrace::trace(&self.nums, gcx);",
            "GcTrace::trace(&self.tag, gcx);",
            "GcTrace::trace(&self.pair, gcx);",
        ]
    );

    let with = Meta::Value("with".to_string(), Some("trace_smallvec".to_string()));
    assert_eq!(
        derived_calls(Fields::Named(vec![marked("items", with)])),
        ["trace_smallvec(&self.items, gcx);"]
    );

    let mut pair = plain(&[""]);
    pair.push(skipped(""));
    assert_eq!(derived_calls(Fields::Unnamed(pair)), ["GcTrace::trace(&self.0, gcx);"]);

    assert_eq!(
        derived_calls(Fields::Named(plain(&["items", "tag"]))),
        ["GcTrace::trace(&self.items, gcx);", "GcTrace::trace(&self.tag, gcx);"]
    );

    let mut skip_root = vec![skipped("hidden")];
    skip_root.extend(plain(&["keep"]));
    assert_eq!(derived_calls(Fields::Named(skip_root)), ["GcTrace::trace(&self.keep, gcx);"]);
}

#[test]
fn the_derived_code_of_the_tree_matches_its_variants() {
    let variants = vec![
        Variant { name: "Leaf".to_string(), fields: Fields::Unnamed(plain(&[""])) },
        Variant { name: "Branch".to_string(), fields: Fields::Named(plain(&["left", "right"])) },
    ];
    let arms = match derived(Vec::new(), Data::Enum(variants)).body {
        Body::Match(arms) => arms,
        Body::Calls(_) => panic!("not an enum"),
    };
    let read: Vec<(String, Vec<String>)> = arms
        .iter()
        .map(|arm| (arm.variant.clone(), arm.calls.iter().map(line).collect()))
        .collect();
    assert_eq!(
        read,
        [
            ("Leaf".to_string(), vec!["GcTrace::trace(__field_0, gcx);".to_string()]),
            (
                "Branch".to_string(),
                vec![
                    "GcTrace::trace(left, gcx);".to_string(),
                    "GcTrace::trace(right, gcx);".to_string(),
                ]
            ),
        ]
    );
}

#[test]
fn the_derived_code_of_the_generic_type_bounds_its_parameter() {
    let params = vec![Param { name: "T".to_string(), is_type: true, bounds: Vec::new() }];
    let out = derived(params, Data::Struct(Fields::Named(plain(&["items"]))));
    assert_eq!(out.params[0].name, "T");
    assert_eq!(out.params[0].bounds, ["::gc_lite::GcTrace"]);
    match &out.body {
        Body::Calls(list) => {
            let calls: Vec<String> = list.iter().map(line).collect();
            assert_eq!(calls, ["GcTrace::trace(&self.items, gcx);"]);
        }
        Body::Match(_) => panic!("not a struct"),
    }
}

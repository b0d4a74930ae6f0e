use std::collections::BTreeMap;

use scarlet::core_ir::types::RTy;
use scarlet::core_ir::{
    Atom, Callee, ConstId, CoreBind, CoreExpr, CoreFn, CorePat, FuncIdx, LocalId, PrimOp, TypeId, Variant,
};
use scarlet::dis::{consts, listing, summary, types, Const, Filter, Program, ProgramFn, TypeNames, VariantNames};

const TY: RTy = RTy(0);

fn bind(n: u32) -> CoreBind {
    CoreBind::new(LocalId(n), TY)
}

fn func(params: Vec<CoreBind>, body: CoreExpr) -> CoreFn {
    CoreFn { params, body, ret_ty: TY }
}

fn ret(a: Atom) -> CoreExpr {
    CoreExpr::Tail(a)
}

fn named(module: &str, name: &str, text: &str, core: CoreFn) -> ProgramFn {
    ProgramFn { module: module.to_string(), name: name.to_string(), core, text: text.to_string() }
}

fn toplevel() -> ProgramFn {
    named("main", "__main__", "fn main.__main__()\n  ret nil\n", func(vec![], ret(Atom::Nil)))
}

fn program(fns: Vec<ProgramFn>, consts: Vec<Const>, types: BTreeMap<i32, TypeNames>) -> Program {
    let main = fns.iter().position(|f| f.module == "main" && f.name == "main").map(|i| FuncIdx(i as u32));
    Program { fns, toplevel: toplevel(), consts, types, inits: vec![], globals: 0, main }
}

fn print_call(loads: &[u32]) -> CoreFn {
    let mut body = ret(Atom::Nil);
    for (i, c) in loads.iter().enumerate().rev() {
        let call = CoreExpr::Let {
            bind: bind(2 * i as u32 + 1),
            rhs: Atom::Call { callee: Callee::Known(FuncIdx(0)), args: vec![LocalId(2 * i as u32)] },
            body: Box::new(body),
        };
        body = CoreExpr::Let { bind: bind(2 * i as u32), rhs: Atom::Const(ConstId(*c)), body: Box::new(call) };
    }
    func(vec![], body)
}

/// `square` and a `main` that prints `square(3)`, with the standard library's `println`.
fn square() -> Program {
    let square = named(
        "main",
        "square",
        "fn main.square(%0: Int) Int\n  ret IntMul(%0, %0)\n",
        func(vec![bind(0)], ret(Atom::prim(PrimOp::IntMul, vec![LocalId(0), LocalId(0)]))),
    );
    let main = named("main", "main", "fn main.main()\n  let %0: Int = const#0\n  ret nil\n", print_call(&[0]));
    let println = named("scarlet/io", "println", "fn scarlet/io.println(%0: String)\n  ret nil\n", func(
        vec![bind(0)],
        ret(Atom::Nil),
    ));
    program(vec![println, square, main], vec![Const::Int(3)], BTreeMap::new())
}

#[test]
fn the_entry_listing_is_this_files_functions_and_its_toplevel() {
    let text = listing(&square(), Filter::Entry).expect("main has functions");
    assert!(text.contains("fn main.square(%0:"), "{text}");
    assert!(text.contains("IntMul(%0, %0)"), "{text}");
    assert!(text.contains("\n; toplevel\nfn main.__main__("), "{text}");
    assert!(!text.contains("fn scarlet."), "listed a stdlib function:\n{text}");
    assert!(!text.contains("fn scarlet/"), "listed a stdlib function:\n{text}");
}

/// A listing names each constant it loads, and cuts a long one short: an
/// `@embed` const is a whole file.
#[test]
fn a_listing_shows_its_constants_and_cuts_long_ones_short() {
    let long = "x".repeat(200);
    let main = named("main", "main", "fn main.main()\n  ret nil\n", print_call(&[0, 1, 2]));
    let text = listing(
        &program(
            vec![main],
            vec![
                Const::String("hi".to_string()),
                Const::String(long),
                Const::Binary { bytes: vec![1, 2], bit_len: 16 },
                Const::String("not loaded".to_string()),
            ],
            BTreeMap::new(),
        ),
        Filter::Entry,
    )
    .expect("main exists");
    assert!(text.contains("\n; consts\n"), "{text}");
    assert!(text.contains(" 'hi'\n"), "{text}");
    let cut = format!(" '{}'... (200 bytes)\n", "x".repeat(48));
    assert!(text.contains(&cut), "{text}");
    assert!(!text.contains(&"x".repeat(49)), "{text}");
    assert!(!text.contains("not loaded"), "{text}");
}

#[test]
fn a_named_listing_reaches_into_the_stdlib() {
    let replace = named(
        "scarlet/string",
        "replace",
        "fn scarlet/string.replace(%0: String, %1: String, %2: String) String\n  ret %0\n",
        func(vec![bind(0), bind(1), bind(2)], ret(Atom::Local(LocalId(0)))),
    );
    let main = named("main", "main", "fn main.main()\n  ret nil\n", print_call(&[0, 0, 1]));
    let p = program(
        vec![replace, main],
        vec![Const::String("a".to_string()), Const::String("b".to_string())],
        BTreeMap::new(),
    );
    let text = listing(&p, Filter::Named("replace")).expect("replace exists");
    assert!(text.contains("fn scarlet/string.replace("), "{text}");
    assert!(!text.contains("; toplevel"), "{text}");
}

fn names(name: &str, fields: &[&str]) -> VariantNames {
    VariantNames { name: name.to_string(), fields: fields.iter().map(|f| f.to_string()).collect() }
}

/// `area` over a `Shape`, with a second type that nothing in this file makes.
fn shapes() -> Program {
    let shape = TypeId(40);
    let circle = Variant { type_id: shape, tag: 0 };
    let dot = Variant { type_id: shape, tag: 1 };
    let area = CoreExpr::Match {
        scrut: LocalId(0),
        arms: vec![
            (
                CorePat::Ctor { variant: circle, fields: vec![bind(1)] },
                ret(Atom::prim(PrimOp::IntMul, vec![LocalId(1), LocalId(1)])),
            ),
            (CorePat::Ctor { variant: dot, fields: vec![] }, ret(Atom::Const(ConstId(0)))),
        ],
        ty: TY,
    };
    let main = CoreExpr::Let {
        bind: bind(0),
        rhs: Atom::Const(ConstId(1)),
        body: Box::new(ret(Atom::Ctor { variant: circle, fields: vec![LocalId(0)], reuse: None })),
    };
    let mut types = BTreeMap::new();
    types.insert(40, TypeNames {
        name: "Shape".to_string(),
        variants: vec![names("Circle", &["radius"]), names("Dot", &[])],
    });
    types.insert(7, TypeNames { name: "Other".to_string(), variants: vec![names("Other", &["a", "b"])] });
    program(
        vec![
            named("main", "area", "fn main.area(%0: Shape) Int\n", func(vec![bind(0)], area)),
            named("main", "main", "fn main.main()\n", func(vec![], main)),
        ],
        vec![Const::Int(0), Const::Int(2)],
        types,
    )
}

/// A listing ends with the names of the constructors it shows, and only
/// those.
#[test]
fn the_listing_names_its_constructors() {
    let text = listing(&shapes(), Filter::Entry).expect("main has functions");
    let (_, types) = text.split_once("\n; types\n").expect("a types section");
    let lines: Vec<&str> = types.lines().collect();
    assert_eq!(lines.len(), 1, "{types}");
    assert!(lines[0].ends_with(" Shape: .0 Circle(radius), .1 Dot"), "{types}");
}

#[test]
fn a_name_nothing_has_lists_nothing() {
    assert!(listing(&square(), Filter::Named("nope")).is_none());
}

/// The header counts what the listing was taken from, so a filtered
/// listing still says how big the program is and where it starts.
#[test]
fn the_summary_names_where_the_program_starts() {
    let text = listing(&square(), Filter::Named("square")).expect("square exists");
    let first = text.lines().next().unwrap_or_default();
    assert!(first.starts_with("; "), "{first}");
    assert!(first.contains("2 from this file"), "{first}");
    assert!(first.ends_with("(main)"), "{first}");
    assert_eq!(summary(&square()).trim_end(), first);
}

/// Quotes, newlines and the like are escaped in a constant, and a cut counts characters.
#[test]
fn a_constant_is_shown_escaped() {
    let p = program(
        vec![named("main", "main", "fn main.main()\n", print_call(&[0, 1, 2, 3, 4]))],
        vec![
            Const::String("a\n\"b\"\t".to_string()),
            Const::Int(-7),
            Const::Float("1.5".to_string()),
            Const::Binary { bytes: (0..20).collect(), bit_len: 160 },
            Const::String("é".repeat(50)),
        ],
        BTreeMap::new(),
    );
    let mut out = String::new();
    let bodies: Vec<&CoreExpr> = p.fns.iter().map(|f| &f.core.body).collect();
    consts(&p, &bodies, &mut out);
    assert!(out.contains(" 'a\\n\\\"b\\\"\\t'\n"), "{out}");
    assert!(out.contains(" -7\n"), "{out}");
    assert!(out.contains(" 1.5\n"), "{out}");
    assert!(out.contains("<<0, 1, 2, 3, 4, 5, 6, 7, 8, 9, 10, 11, 12, 13, 14, 15"), "{out}");
    assert!(!out.contains("16, "), "{out}");
    assert!(out.contains(&format!(" '{}'... (100 bytes)\n", "é".repeat(48))), "{out}");
    let order: Vec<usize> = ["'a", " -7", " 1.5", "<<0", "'é"].iter().map(|w| out.find(w).expect("shown")).collect();
    assert!(order.windows(2).all(|w| w[0] < w[1]), "{out}");
}

#[test]
fn types_are_listed_by_number() {
    let p = shapes();
    let mut out = String::new();
    types(&p, &vec![&p.fns[0].core.body], &mut out);
    assert!(out.contains(" Shape: .0 Circle(radius), .1 Dot"), "{out}");
    assert!(!out.contains("Other"), "{out}");
    let mut none = String::new();
    types(&p, &vec![&p.toplevel.core.body], &mut none);
    assert_eq!(none, "");
}

use scarlet::core_ir::globals::keep_globals;
use scarlet::core_ir::perceus::{perceus, Exit, Perceus};
use scarlet::core_ir::types::{PrimIds, RTy, ResolvedPool};
use scarlet::core_ir::{
    Atom, Callee, ConstId, CoreBind, CoreExpr, CoreFn, CorePat, FuncIdx, GlobalSlot, JoinId, LocalId, PrimOp, ReuseShape,
    TypeId, Variant,
};

fn local(n: u32) -> LocalId {
    LocalId(n)
}

fn bind(n: u32, ty: RTy) -> CoreBind {
    CoreBind::new(LocalId(n), ty)
}

fn variant() -> Variant {
    Variant { type_id: TypeId(99), tag: 0 }
}

fn ctor(fields: &[u32]) -> Atom {
    Atom::Ctor { variant: variant(), fields: fields.iter().map(|&n| LocalId(n)).collect(), reuse: None }
}

fn func(params: Vec<CoreBind>, body: CoreExpr, ret_ty: RTy) -> CoreFn {
    CoreFn { params, body, ret_ty }
}

/// An arena as the elaborator hands it on.
fn pool() -> ResolvedPool {
    ResolvedPool::new(PrimIds::default())
}

/// A nominal, non-primitive type: heap-shaped, unknown allocation width.
fn con(p: &mut ResolvedPool, id: i32) -> RTy {
    p.mk_con(TypeId(id))
}

/// The unboxed `Int`: not heap-shaped, so no `Drop`.
fn int_ty(p: &mut ResolvedPool) -> RTy {
    let whole = p.prims().int;
    p.mk_con(whole)
}

fn count_drops(e: &CoreExpr) -> usize {
    match e {
        CoreExpr::Drop { body, .. } => 1 + count_drops(body),
        CoreExpr::Let { body, .. } => count_drops(body),
        CoreExpr::LetJoin { join, body, .. } => count_drops(join) + count_drops(body),
        CoreExpr::LetCont { cont, body, .. } => count_drops(cont) + count_drops(body),
        CoreExpr::If { yes: then, no: els, .. } => count_drops(then) + count_drops(els),
        CoreExpr::Match { arms, .. } => arms.iter().map(|(_, b)| count_drops(b)).sum(),
        CoreExpr::Tail(_) | CoreExpr::Goto(_) => 0,
    }
}

fn reuses_in(e: &CoreExpr, out: &mut Vec<Option<LocalId>>) {
    match e {
        CoreExpr::Let { rhs, body, .. } => {
            if let Atom::Ctor { reuse, .. } = rhs {
                out.push(*reuse);
            }
            reuses_in(body, out);
        }
        CoreExpr::LetJoin { join, body, .. } => {
            reuses_in(join, out);
            reuses_in(body, out);
        }
        CoreExpr::LetCont { cont, body, .. } => {
            reuses_in(cont, out);
            reuses_in(body, out);
        }
        CoreExpr::Drop { body, .. } => reuses_in(body, out),
        CoreExpr::If { yes: then, no: els, .. } => {
            reuses_in(then, out);
            reuses_in(els, out);
        }
        CoreExpr::Match { arms, .. } => {
            for (_, b) in arms {
                reuses_in(b, out);
            }
        }
        CoreExpr::Tail(Atom::Ctor { reuse, .. }) => out.push(*reuse),
        CoreExpr::Tail(_) | CoreExpr::Goto(_) => {}
    }
}

fn ctor_reuses(e: &CoreExpr) -> Vec<Option<LocalId>> {
    let mut out = Vec::new();
    reuses_in(e, &mut out);
    out
}

fn find_drop(mut e: &CoreExpr, id: LocalId) -> bool {
    loop {
        match e {
            CoreExpr::Drop { local, .. } if *local == id => return true,
            CoreExpr::Drop { body, .. }
            | CoreExpr::Let { body, .. }
            | CoreExpr::LetJoin { body, .. } => e = body,
            CoreExpr::LetCont { cont, body, .. } => {
                return find_drop(cont, id) || find_drop(body, id);
            }
            CoreExpr::Tail(_) | CoreExpr::Goto(_) => return false,
            CoreExpr::If { yes: then, no: els, .. } => {
                return find_drop(then, id) || find_drop(els, id);
            }
            CoreExpr::Match { arms, .. } => {
                return arms.iter().any(|(_, b)| find_drop(b, id));
            }
        }
    }
}

/// A toplevel keeps every value it pins to a global: Perceus's drop of
/// one and a constructor's reuse of its cell both go, while a plain
/// temporary's drop stays.
#[test]
fn keep_globals_spares_pinned_globals_only() {
    let mut pool = pool();
    let obj = con(&mut pool, 7);
    let mut global = bind(0, obj);
    global.global = Some(GlobalSlot(0));
    let reuse_global = Atom::Ctor {
        variant: variant(),
        fields: Vec::new(),
        reuse: Some(local(0)),
    };
    let top = func(
        Vec::new(),
        CoreExpr::Let {
            bind: global,
            rhs: ctor(&[]),
            body: Box::new(CoreExpr::Let {
                bind: bind(1, obj),
                rhs: ctor(&[]),
                body: Box::new(CoreExpr::Drop {
                    local: local(0),
                    shape: Some(ReuseShape::ctor(0)),
                    body: Box::new(CoreExpr::Drop {
                        local: local(1),
                        shape: Some(ReuseShape::ctor(0)),
                        body: Box::new(CoreExpr::Tail(reuse_global)),
                    }),
                }),
            }),
        },
        obj,
    );
    let kept = keep_globals(top);
    assert_eq!(count_drops(&kept.body), 1, "only the temporary is dropped");
    assert!(
        matches!(
            kept.body,
            CoreExpr::Let { ref body, .. }
                if matches!(**body, CoreExpr::Let { ref body, .. }
                    if matches!(**body, CoreExpr::Drop { local, .. } if local == LocalId(1)))
        ),
        "the global's drop is the one removed"
    );
    assert_eq!(
        ctor_reuses(&kept.body),
        vec![None, None, None],
        "no constructor reuses the global's cell"
    );
}

/// `map` shape: match xs { Cons(h,t) -> Cons(h+h, self t) | Nil -> Nil }.
/// The Cons arm's tail Cons reuses `%0` across the recursive call; the Nil
/// arm's arity-0 ctor does not pair.
#[test]
fn map_reuse_across_call_and_arm_shape() {
    let mut pool = pool();
    let list = con(&mut pool, 99);
    let whole = int_ty(&mut pool);
    let cons_body = CoreExpr::Let {
        bind: bind(3, whole),
        rhs: Atom::prim(PrimOp::IntAdd, vec![local(1), local(1)]),
        body: Box::new(CoreExpr::Let {
            bind: bind(4, list),
            rhs: Atom::Call {
                callee: Callee::Self_,
                args: vec![local(2)],
            },
            body: Box::new(CoreExpr::Tail(ctor(&[3, 4]))),
        }),
    };
    let f = func(
        vec![bind(0, list)],
        CoreExpr::Match {
            scrut: local(0),
            arms: vec![
                (
                    CorePat::Ctor {
                        variant: variant(),
                        fields: vec![bind(1, whole), bind(2, list)],
                    },
                    cons_body,
                ),
                (
                    CorePat::Ctor {
                        variant: variant(),
                        fields: vec![],
                    },
                    CoreExpr::Tail(ctor(&[])),
                ),
            ],
            ty: list,
        },
        list,
    );
    let f = perceus(&pool, f);
    let reuses = ctor_reuses(&f.body);
    assert_eq!(reuses.len(), 2);
    assert_eq!(
        reuses[0],
        Some(local(0)),
        "Cons-arm tail ctor reuses %0 across the call (canonical map reuse):\n{:?}",
        f.body
    );
    assert_eq!(
        reuses[1], None,
        "Nil-arm arity-0 ctor does not pair (0-payload reuse is a no-op):\n{:?}",
        f.body
    );
    let CoreExpr::Match { arms, .. } = &f.body else {
        panic!()
    };
    assert!(find_drop(&arms[0].1, local(0)));
    assert!(find_drop(&arms[1].1, local(0)));
}

/// Straight-line `match xs { Cons(h,t) -> Cons(h,t) }`: the arity-2 tail
/// Cons reuses the scrutinee dropped at the arm head.
#[test]
fn match_scrutinee_reused_in_arm() {
    let mut pool = pool();
    let list = con(&mut pool, 99);
    let whole = int_ty(&mut pool);
    let f = func(
        vec![bind(0, list)],
        CoreExpr::Match {
            scrut: local(0),
            arms: vec![(
                CorePat::Ctor {
                    variant: variant(),
                    fields: vec![bind(1, whole), bind(2, list)],
                },
                CoreExpr::Tail(ctor(&[1, 2])),
            )],
            ty: list,
        },
        list,
    );
    let f = perceus(&pool, f);
    assert_eq!(ctor_reuses(&f.body), vec![Some(local(0))], "{:?}", f.body);
}

/// `dot_loop` shape: two 3-arity ctors, consumed by a Call, then a
/// tail-self recursion. Loop-carried reuse pairs each ctor with the
/// previous iteration's dropped cell.
#[test]
fn loop_carried_reuse_across_tail_self() {
    let mut pool = pool();
    let point = con(&mut pool, 99);
    let whole = int_ty(&mut pool);
    let body = CoreExpr::Let {
        bind: bind(2, point),
        rhs: ctor(&[0, 0, 0]),
        body: Box::new(CoreExpr::Let {
            bind: bind(3, point),
            rhs: ctor(&[0, 0, 0]),
            body: Box::new(CoreExpr::Let {
                bind: bind(4, whole),
                rhs: Atom::Call {
                    callee: Callee::Known(FuncIdx(7)),
                    args: vec![local(2), local(3)],
                },
                body: Box::new(CoreExpr::If {
                    cond: local(0),
                    yes: Box::new(CoreExpr::Tail(Atom::Local(local(1)))),
                    no: Box::new(CoreExpr::Tail(Atom::Call {
                        callee: Callee::Self_,
                        args: vec![local(0), local(4)],
                    })),
                    ty: whole,
                }),
            }),
        }),
    };
    let f = perceus(&pool, func(vec![bind(0, whole), bind(1, whole)], body, whole));
    let reuses = ctor_reuses(&f.body);
    assert_eq!(
        reuses,
        vec![Some(local(2)), Some(local(3))],
        "each Ctor reuses its OWN slot (self-pairing); cross-pairing would read a live slot:\n{:?}",
        f.body
    );
    assert!(find_drop(&f.body, local(2)));
    assert!(find_drop(&f.body, local(3)));
}

/// A tail call reads its arguments before its frame's references go, so
/// no argument is dropped ahead of it: that drop would come before the
/// read. Other locals the frame holds still drop as usual.
#[test]
fn a_tail_call_argument_is_not_dropped_before_the_call() {
    let mut pool = pool();
    let list = con(&mut pool, 99);
    for callee in [Callee::Self_, Callee::Known(FuncIdx(3))] {
        let body = CoreExpr::Let {
            bind: bind(1, list),
            rhs: ctor(&[0]),
            body: Box::new(CoreExpr::Tail(Atom::Call {
                callee,
                args: vec![local(1)],
            })),
        };
        let f = perceus(&pool, func(vec![bind(0, list)], body, list));
        assert!(!find_drop(&f.body, local(1)), "{:?}", f.body);
        assert!(find_drop(&f.body, local(0)), "{:?}", f.body);
    }
}

/// Without a self-tail edge nothing loop-carries.
#[test]
fn no_loop_carry_without_tail_self() {
    let mut pool = pool();
    let t = con(&mut pool, 99);
    let whole = int_ty(&mut pool);
    let body = CoreExpr::Let {
        bind: bind(1, t),
        rhs: ctor(&[0, 0]),
        body: Box::new(CoreExpr::Let {
            bind: bind(2, whole),
            rhs: Atom::prim(PrimOp::IntAdd, vec![local(1)]),
            body: Box::new(CoreExpr::Tail(Atom::Local(local(2)))),
        }),
    };
    let f = perceus(&pool, func(vec![bind(0, whole)], body, whole));
    assert_eq!(ctor_reuses(&f.body), vec![None], "{:?}", f.body);
    assert!(find_drop(&f.body, local(1)), "%1 dropped after last use");
}

#[test]
fn no_drop_for_unboxed_prims() {
    let mut pool = pool();
    let whole = int_ty(&mut pool);
    let f = perceus(
        &pool,
        func(
            vec![bind(0, whole)],
            CoreExpr::Tail(Atom::Const(ConstId(0))),
            whole,
        ),
    );
    assert_eq!(count_drops(&f.body), 0);
}

/// A heap local from a `Call` rhs still drops, but with `shape: None`
/// (unknown arity), so it never pairs.
#[test]
fn call_result_drops_without_shape() {
    let mut pool = pool();
    let t = con(&mut pool, 99);
    let f = perceus(
        &pool,
        func(
            vec![],
            CoreExpr::Let {
                bind: bind(0, t),
                rhs: Atom::Call {
                    callee: Callee::Known(FuncIdx(0)),
                    args: vec![],
                },
                body: Box::new(CoreExpr::Tail(ctor(&[]))),
            },
            t,
        ),
    );
    let CoreExpr::Let { body, .. } = &f.body else {
        panic!()
    };
    let CoreExpr::Drop { local, shape, .. } = &**body else {
        panic!("expected Drop for dead %0:\n{:?}", f.body)
    };
    assert_eq!(*local, LocalId(0));
    assert_eq!(*shape, None, "Call result has no known arity");
    assert_eq!(
        ctor_reuses(&f.body),
        vec![None],
        "shape-less drop never pairs"
    );
}

/// A local live into one `If` branch only drops at the head of the other,
/// so both paths release it exactly once.
#[test]
fn if_join_equalises_ownership() {
    let mut pool = pool();
    let t = con(&mut pool, 99);
    let whole = int_ty(&mut pool);
    let f = perceus(
        &pool,
        func(
            vec![bind(0, t), bind(1, whole)],
            CoreExpr::If {
                cond: local(1),
                yes: Box::new(CoreExpr::Tail(Atom::Local(local(0)))),
                no: Box::new(CoreExpr::Tail(Atom::Call {
                    callee: Callee::Known(FuncIdx(0)),
                    args: vec![],
                })),
                ty: t,
            },
            t,
        ),
    );
    let CoreExpr::If { yes: then, no: els, .. } = &f.body else {
        panic!()
    };
    assert_eq!(count_drops(then), 0, "then reads %0 as its return value");
    assert_eq!(count_drops(els), 1, "els drops %0 at head");
}

/// A rigid quantified variable may be instantiated at a cell, so a dead
/// one drops like a nominal: the `Drop` of a value word gives up nothing.
#[test]
fn a_type_variable_drops_like_a_nominal() {
    let mut pool = pool();
    let generic = pool.mk_bound(0);
    let whole = int_ty(&mut pool);
    let t = con(&mut pool, 99);
    for ty in [generic, t] {
        let f = perceus(
            &pool,
            func(
                vec![bind(0, ty), bind(1, whole)],
                CoreExpr::Tail(Atom::Local(local(1))),
                whole,
            ),
        );
        assert_eq!(count_drops(&f.body), 1, "dead param drops at head");
        assert!(find_drop(&f.body, local(0)), "{:?}", f.body);
    }
}

#[test]
fn shape_mismatch_does_not_pair() {
    let mut pool = pool();
    let t = con(&mut pool, 99);
    let f = perceus(
        &pool,
        func(
            vec![bind(0, t)],
            CoreExpr::Let {
                bind: bind(1, t),
                rhs: ctor(&[0, 0]),
                body: Box::new(CoreExpr::Let {
                    bind: bind(2, t),
                    rhs: Atom::prim(PrimOp::IntAdd, vec![local(1)]),
                    body: Box::new(CoreExpr::Tail(ctor(&[2, 2, 2]))),
                }),
            },
            t,
        ),
    );
    assert_eq!(
        ctor_reuses(&f.body),
        vec![None, None],
        "arity-2 drop cannot feed arity-3 ctor:\n{:?}",
        f.body
    );
}

/// Ownership equalisation across `Goto` edges: `%0` is live into the shared
/// cont, `%2` is not. Every owned local is released exactly once on every
/// path, before the edge or inside the cont, never both.
#[test]
fn goto_edges_equalise_ownership() {
    let mut pool = pool();
    let t = con(&mut pool, 99);
    let whole = int_ty(&mut pool);
    let f = perceus(
        &pool,
        func(
            vec![bind(0, t), bind(1, whole), bind(2, t)],
            CoreExpr::LetCont {
                id: JoinId(0),
                cont: Box::new(CoreExpr::Tail(Atom::Local(local(0)))),
                body: Box::new(CoreExpr::If {
                    cond: local(1),
                    yes: Box::new(CoreExpr::Goto(JoinId(0))),
                    no: Box::new(CoreExpr::Tail(Atom::Local(local(2)))),
                    ty: t,
                }),
            },
            t,
        ),
    );
    let CoreExpr::LetCont { cont, body, .. } = &f.body else {
        panic!("LetCont survives the pass:\n{:?}", f.body)
    };
    assert_eq!(count_drops(cont), 0, "cont returns %0:\n{:?}", f.body);
    let CoreExpr::If { yes: then, no: els, .. } = &**body else {
        panic!("{:?}", f.body)
    };
    assert!(
        find_drop(then, local(2)),
        "Goto edge drops the local the cont does not consume:\n{:?}",
        f.body
    );
    assert!(
        !find_drop(then, local(0)),
        "Goto edge must not drop a cont live-in (the cont owns it):\n{:?}",
        f.body
    );
    assert!(
        find_drop(els, local(0)),
        "non-Goto path drops %0:\n{:?}",
        f.body
    );
    assert!(!find_drop(els, local(2)), "els returns %2:\n{:?}", f.body);
}

/// A local whose last use is inside the shared cont drops there, once, and
/// no edge drops it before its `Goto`.
#[test]
fn drop_inside_shared_cont_not_on_edges() {
    let mut pool = pool();
    let t = con(&mut pool, 99);
    let whole = int_ty(&mut pool);
    let cont = CoreExpr::Let {
        bind: bind(2, whole),
        rhs: Atom::prim(PrimOp::IntAdd, vec![local(0)]),
        body: Box::new(CoreExpr::Tail(Atom::Local(local(2)))),
    };
    let f = perceus(
        &pool,
        func(
            vec![bind(0, t), bind(1, whole)],
            CoreExpr::LetCont {
                id: JoinId(0),
                cont: Box::new(cont),
                body: Box::new(CoreExpr::If {
                    cond: local(1),
                    yes: Box::new(CoreExpr::Goto(JoinId(0))),
                    no: Box::new(CoreExpr::Goto(JoinId(0))),
                    ty: whole,
                }),
            },
            whole,
        ),
    );
    assert_eq!(
        count_drops(&f.body),
        1,
        "exactly one Drop, inside the cont:\n{:?}",
        f.body
    );
    let CoreExpr::LetCont { cont, .. } = &f.body else {
        panic!("{:?}", f.body)
    };
    assert!(
        find_drop(cont, local(0)),
        "%0's last use is in the cont, so it drops there:\n{:?}",
        f.body
    );
}

/// `let %9 = (match %0 { V(%1) -> f(%1) }); %9`: the arm drops the
/// scrutinee, and since nothing runs between its value and the code after
/// the join, it binds the call to a fresh local, drops `%1` after it, and
/// hands the fresh local over with `move`. Nothing drops after the join.
#[test]
fn a_join_arm_hands_over_the_value_that_reads_a_local_last() {
    let mut pool = pool();
    let t = con(&mut pool, 99);
    let join = CoreExpr::Match {
        scrut: local(0),
        arms: vec![(
            CorePat::Ctor {
                variant: variant(),
                fields: vec![bind(1, t)],
            },
            CoreExpr::Tail(Atom::Call {
                callee: Callee::Known(FuncIdx(3)),
                args: vec![local(1)],
            }),
        )],
        ty: t,
    };
    let f = perceus(
        &pool,
        func(
            vec![bind(0, t)],
            CoreExpr::LetJoin {
                bind: bind(9, t),
                join: Box::new(join),
                body: Box::new(CoreExpr::Tail(Atom::Local(local(9)))),
            },
            t,
        ),
    );
    let CoreExpr::LetJoin { join, body, .. } = &f.body else {
        panic!("{:?}", f.body)
    };
    assert_eq!(count_drops(body), 0, "{:?}", f.body);
    let CoreExpr::Match { arms, .. } = &**join else {
        panic!("{:?}", f.body)
    };
    let CoreExpr::Drop { local: scrut, shape, body } = &arms[0].1 else {
        panic!("{:?}", f.body)
    };
    assert_eq!((*scrut, *shape), (local(0), Some(ReuseShape::ctor(1))));
    let CoreExpr::Let { bind, rhs, body } = &**body else {
        panic!("{:?}", f.body)
    };
    assert_eq!(bind.id, local(10));
    let Atom::Call { callee, args } = rhs else {
        panic!("{:?}", f.body)
    };
    assert_eq!((*callee, &args[..]), (Callee::Known(FuncIdx(3)), &[local(1)][..]));
    let CoreExpr::Drop { local: field, shape, body } = &**body else {
        panic!("{:?}", f.body)
    };
    assert_eq!((*field, *shape), (local(1), None));
    assert!(matches!(&**body, CoreExpr::Tail(Atom::Move(l)) if *l == local(10)), "{:?}", f.body);
}

/// An arm's value that is a local the code after the join still reads is
/// shared, not moved, and no arm drops it.
#[test]
fn a_join_arm_shares_a_local_the_code_after_reads() {
    let mut pool = pool();
    let t = con(&mut pool, 99);
    let whole = int_ty(&mut pool);
    let f = perceus(
        &pool,
        func(
            vec![bind(0, t), bind(1, whole)],
            CoreExpr::LetJoin {
                bind: bind(2, t),
                join: Box::new(CoreExpr::If {
                    cond: local(1),
                    yes: Box::new(CoreExpr::Tail(Atom::Local(local(0)))),
                    no: Box::new(CoreExpr::Tail(ctor(&[]))),
                    ty: t,
                }),
                body: Box::new(CoreExpr::Tail(Atom::Call {
                    callee: Callee::Known(FuncIdx(3)),
                    args: vec![local(0), local(2)],
                })),
            },
            t,
        ),
    );
    let CoreExpr::LetJoin { join, .. } = &f.body else {
        panic!("{:?}", f.body)
    };
    assert_eq!(count_drops(join), 0, "{:?}", f.body);
    let CoreExpr::If { yes: then, .. } = &**join else {
        panic!("{:?}", f.body)
    };
    assert!(
        matches!(**then, CoreExpr::Tail(Atom::Local(l)) if l == local(0)),
        "{:?}",
        f.body
    );
}

/// A cell every arm of a join parks is still parked after it, so a
/// constructor there takes it; one only some arms park is not.
#[test]
fn a_cell_parked_on_every_exit_of_a_join_is_reused_after_it() {
    let mut pool = pool();
    let t = con(&mut pool, 99);
    let whole = int_ty(&mut pool);
    let arm = |then_parks: bool| {
        let first = CoreExpr::Match {
            scrut: local(0),
            arms: vec![(
                CorePat::Ctor {
                    variant: variant(),
                    fields: vec![bind(3, whole), bind(4, whole)],
                },
                CoreExpr::Tail(Atom::Local(local(3))),
            )],
            ty: whole,
        };
        let second = if then_parks {
            CoreExpr::Match {
                scrut: local(0),
                arms: vec![(
                    CorePat::Ctor {
                        variant: variant(),
                        fields: vec![bind(5, whole), bind(6, whole)],
                    },
                    CoreExpr::Tail(Atom::Local(local(6))),
                )],
                ty: whole,
            }
        } else {
            CoreExpr::Tail(Atom::Local(local(1)))
        };
        CoreExpr::If {
            cond: local(1),
            yes: Box::new(first),
            no: Box::new(second),
            ty: whole,
        }
    };
    for (every, want) in [(true, Some(local(0))), (false, None)] {
        let f = perceus(
            &pool,
            func(
                vec![bind(0, t), bind(1, whole)],
                CoreExpr::LetJoin {
                    bind: bind(2, whole),
                    join: Box::new(arm(every)),
                    body: Box::new(CoreExpr::Tail(ctor(&[2, 2]))),
                },
                t,
            ),
        );
        assert_eq!(ctor_reuses(&f.body), vec![want], "{:?}", f.body);
    }
}

/// A token parked before the `LetCont` pairs on the fallthrough path but
/// never inside the cont, whose token stack starts empty.
#[test]
fn cont_enters_with_empty_reuse_stack() {
    let mut pool = pool();
    let t = con(&mut pool, 99);
    let whole = int_ty(&mut pool);
    let f = perceus(
        &pool,
        func(
            vec![bind(0, whole)],
            CoreExpr::Let {
                bind: bind(1, t),
                rhs: ctor(&[0, 0]),
                body: Box::new(CoreExpr::Let {
                    bind: bind(2, whole),
                    rhs: Atom::prim(PrimOp::IntAdd, vec![local(1)]),
                    // Drop %1 [Enum:2] lands here, ahead of the LetCont.
                    body: Box::new(CoreExpr::LetCont {
                        id: JoinId(0),
                        cont: Box::new(CoreExpr::Tail(ctor(&[0, 0]))),
                        body: Box::new(CoreExpr::If {
                            cond: local(2),
                            yes: Box::new(CoreExpr::Goto(JoinId(0))),
                            no: Box::new(CoreExpr::Tail(ctor(&[0, 0]))),
                            ty: t,
                        }),
                    }),
                }),
            },
            t,
        ),
    );
    assert_eq!(
        ctor_reuses(&f.body),
        vec![None, None, Some(local(1))],
        "the cont's ctor must not claim %1's token; the body-path ctor may:\n{:?}",
        f.body
    );
}

/// The body without its releases.
fn strip(e: CoreExpr) -> CoreExpr {
    let boxed = |e: Box<CoreExpr>| Box::new(strip(*e));
    match e {
        CoreExpr::Drop { body, .. } => strip(*body),
        CoreExpr::Let { bind, rhs, body } => CoreExpr::Let { bind, rhs, body: boxed(body) },
        CoreExpr::LetJoin { bind, join, body } => CoreExpr::LetJoin { bind, join: boxed(join), body: boxed(body) },
        CoreExpr::LetCont { id, cont, body } => CoreExpr::LetCont { id, cont: boxed(cont), body: boxed(body) },
        CoreExpr::If { cond, yes, no, ty } => CoreExpr::If { cond, yes: boxed(yes), no: boxed(no), ty },
        CoreExpr::Match { scrut, arms, ty } => {
            CoreExpr::Match { scrut, arms: arms.into_iter().map(|(p, b)| (p, strip(b))).collect(), ty }
        }
        CoreExpr::Tail(_) | CoreExpr::Goto(_) => e,
    }
}

/// `let 2 = ctor(0); match 0 { ctor(3, 4) => <yes>, 5 => if 1 { tail 5 } else { tail 2 } }`
fn branching(t: RTy, yes: CoreExpr) -> CoreExpr {
    CoreExpr::Let {
        bind: bind(2, t),
        rhs: ctor(&[0]),
        body: Box::new(CoreExpr::Match {
            scrut: local(0),
            arms: vec![
                (CorePat::Ctor { variant: variant(), fields: vec![bind(3, t), bind(4, t)] }, yes),
                (
                    CorePat::Bind(bind(5, t)),
                    CoreExpr::If {
                        cond: local(1),
                        yes: Box::new(CoreExpr::Tail(Atom::Local(local(5)))),
                        no: Box::new(CoreExpr::Tail(Atom::Local(local(2)))),
                        ty: t,
                    },
                ),
            ],
            ty: t,
        }),
    }
}

#[test]
fn the_drop_pass_can_be_run_again() {
    let mut pool = pool();
    let t = con(&mut pool, 7);
    let whole = int_ty(&mut pool);
    let body = || branching(t, CoreExpr::Tail(ctor(&[3])));
    let started = || {
        let mut cx = Perceus::new(&pool, 10);
        cx.record_bind(&bind(0, t), None);
        cx.record_bind(&bind(1, whole), None);
        cx
    };
    let mut cx = started();
    let (once, live) = cx.drop_pass(body(), &Exit::Return);
    assert!(count_drops(&once) > 3);
    let text = format!("{once:?}");
    // From what the first run left.
    let (twice, live2) = cx.drop_pass(once, &Exit::Return);
    assert_eq!(format!("{twice:?}"), text);
    assert_eq!(live2, live);
    // From the start.
    let (thrice, live3) = started().drop_pass(twice, &Exit::Return);
    assert_eq!(format!("{thrice:?}"), text);
    assert_eq!(live3, live);
    assert_eq!(format!("{:?}", strip(thrice)), format!("{:?}", strip(body())));
}

#[test]
fn the_drop_pass_can_be_run_again_on_joins() {
    let mut pool = pool();
    let t = con(&mut pool, 7);
    let whole = int_ty(&mut pool);
    let body = CoreExpr::LetJoin {
        bind: bind(6, t),
        join: Box::new(branching(t, CoreExpr::Tail(ctor(&[3, 4])))),
        body: Box::new(CoreExpr::Tail(Atom::Local(local(6)))),
    };
    let mut cx = Perceus::new(&pool, 10);
    cx.record_bind(&bind(0, t), None);
    cx.record_bind(&bind(1, whole), None);
    let (once, live) = cx.drop_pass(body, &Exit::Return);
    let text = format!("{once:?}");
    assert!(text.contains("Move"), "{text}");
    let (twice, live2) = cx.drop_pass(once, &Exit::Return);
    assert_eq!(format!("{twice:?}"), text);
    assert_eq!(live2, live);
}

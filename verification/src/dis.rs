//! A compiled program as text.
//!
//! The standard library compiles into the same [`Program`] as the user's code, so a listing
//! always picks: the entry file's own functions, or every function whose name matches, from
//! any module.
use std::collections::{BTreeMap, BTreeSet};

use vstd::laws_cmp::obeys_cmp;
use vstd::prelude::*;
use vstd::std_specs::btree::{increasing_seq, spec_btree_keys_iter};
use vstd::std_specs::cmp::OrdSpec;
use vstd::std_specs::iter::IteratorSpec;
use vstd::string::{StrSliceExecFns, StringExecFns};
use vstd::utf8::encode_utf8;

use crate::core_ir::mentions::{loads, makes};
use crate::core_ir::{CoreExpr, CoreFn, FuncIdx};
use crate::text::{contains, decimal, has, push_decimal, push_number};
use crate::vm::binary::shown_bytes;
use crate::voxel::sorted::{ascends, in_order};

verus! {

broadcast use {vstd::std_specs::btree::group_btree_axioms, vstd::laws_cmp::group_laws_cmp};

/// A constant. A float is held as the shortest text that reads as it.
#[derive(Debug)]
pub enum Const {
    Int(i64),
    Float(String),
    String(String),
    Binary { bytes: Vec<u8>, bit_len: u64 },
}

/// A constructor's name, and those of its fields.
#[derive(Debug)]
pub struct VariantNames {
    pub name: String,
    pub fields: Vec<String>,
}

/// A type's name, and those of its constructors, by tag.
#[derive(Debug)]
pub struct TypeNames {
    pub name: String,
    pub variants: Vec<VariantNames>,
}

/// A function: the module it is from, its name in it, its body, and how it is written.
#[derive(Debug)]
pub struct ProgramFn {
    pub module: String,
    pub name: String,
    pub core: CoreFn,
    pub text: String,
}

/// A compiled program.
#[derive(Debug)]
pub struct Program {
    pub fns: Vec<ProgramFn>,
    pub toplevel: ProgramFn,
    pub consts: Vec<Const>,
    pub types: BTreeMap<i32, TypeNames>,
    pub inits: Vec<FuncIdx>,
    pub globals: u32,
    pub main: Option<FuncIdx>,
}

/// Which functions a listing shows.
#[derive(Clone, Copy, Debug)]
pub enum Filter<'a> {
    /// The entry file's functions, and its toplevel.
    Entry,
    /// Every function, from any module, whose name has this in it.
    Named(&'a str),
}

/// The module that the entry file is.
pub open spec fn entry_module() -> Seq<char> {
    "main"@
}

/// How much of a long string a listing shows.
pub const SHOWN_CHARS: usize = 48;

/// How much of a long binary a listing shows.
pub const SHOWN_BYTES: usize = 16;

/// What `str::escape_debug` makes of a text.
pub uninterp spec fn escaped(s: Seq<char>) -> Seq<char>;

/// A text by `str::escape_debug`: each character that does not show as itself is escaped.
#[verifier::external_body]
fn escape(s: &str) -> (r: String)
    ensures
        r@ == escaped(s@),
{
    s.escape_debug().to_string()
}

/// A number that may be negative, in decimal.
pub open spec fn signed(n: int) -> Seq<char> {
    if n < 0 {
        "-"@ + decimal((-n) as nat)
    } else {
        decimal(n as nat)
    }
}

fn push_signed(out: &mut String, n: i64)
    ensures
        final(out)@ == old(out)@ + signed(n as int),
{
    if n < 0 {
        out.append("-");
        push_number(out, (-(n as i128)) as u128);
    } else {
        push_number(out, n as u128);
    }
    assert(out@ =~= old(out)@ + signed(n as int));
}

/// The first of some items, up to `n`.
pub open spec fn first<T>(s: Seq<T>, n: int) -> Seq<T> {
    if s.len() <= n {
        s
    } else {
        s.take(n)
    }
}

/// A constant as a listing shows it. A long string or binary is cut short, with its whole
/// length.
pub open spec fn const_text(c: Const) -> Seq<char> {
    match c {
        Const::Int(n) => signed(n as int),
        Const::Float(t) => t@,
        Const::String(t) => "'"@ + escaped(first(t@, SHOWN_CHARS as int)) + "'"@ + (if t@.len() > SHOWN_CHARS {
            "... ("@ + decimal(encode_utf8(t@).len()) + " bytes)"@
        } else {
            Seq::empty()
        }),
        Const::Binary { bytes, bit_len } => "<<"@ + shown_bytes(first(bytes@, SHOWN_BYTES as int)) + (if bytes@.len()
            > SHOWN_BYTES {
            ", ..."@
        } else {
            Seq::empty()
        }) + ">>"@ + (if bytes@.len() > SHOWN_BYTES || bit_len % 8 != 0 {
            " ("@ + decimal(bit_len as nat) + " bits)"@
        } else {
            Seq::empty()
        }),
    }
}

/// The line of a constant.
pub open spec fn const_line(p: Program, c: u32) -> Seq<char> {
    "; c"@ + decimal(c as nat) + " "@ + (if c < p.consts@.len() {
        const_text(p.consts@[c as int])
    } else {
        "is not in the program"@
    }) + "\n"@
}

/// The lines of the constants of `s` below `n`, the lowest first.
pub open spec fn const_lines(p: Program, s: Set<u32>, n: nat) -> Seq<char>
    decreases n,
{
    if n == 0 {
        Seq::empty()
    } else {
        const_lines(p, s, (n - 1) as nat) + (if n - 1 <= u32::MAX && s.contains((n - 1) as u32) {
            const_line(p, (n - 1) as u32)
        } else {
            Seq::empty()
        })
    }
}

/// The part of a listing with the constants of `s`.
pub open spec fn consts_text(p: Program, s: Set<u32>) -> Seq<char> {
    if forall|c: u32| !s.contains(c) {
        Seq::empty()
    } else {
        "\n; consts\n"@ + const_lines(p, s, 0x1_0000_0000)
    }
}

/// Numbers that are not in the set add no line.
proof fn no_consts_between(p: Program, s: Set<u32>, a: nat, b: nat)
    requires
        a <= b,
        forall|c: u32| a <= c < b ==> !(#[trigger] s.contains(c)),
    ensures
        const_lines(p, s, b) == const_lines(p, s, a),
    decreases b,
{
    if a < b {
        no_consts_between(p, s, a, (b - 1) as nat);
        assert(const_lines(p, s, b) =~= const_lines(p, s, (b - 1) as nat));
    }
}

/// Adds bytes as a list.
fn push_bytes(out: &mut String, bytes: &Vec<u8>, n: usize)
    requires
        n <= bytes@.len(),
    ensures
        final(out)@ == old(out)@ + shown_bytes(bytes@.take(n as int)),
{
    let ghost before = out@;
    let mut k: usize = 0;
    assert(out@ =~= before + shown_bytes(bytes@.take(0)));
    while k < n
        invariant
            k <= n <= bytes@.len(),
            out@ == before + shown_bytes(bytes@.take(k as int)),
        decreases n - k,
    {
        if k > 0 {
            out.append(", ");
        }
        push_decimal(out, bytes[k] as u64);
        proof {
            let t = bytes@.take(k + 1);
            assert(t.drop_last() =~= bytes@.take(k as int));
            assert(t.last() == bytes@[k as int]);
            assert(out@ =~= before + shown_bytes(t));
        }
        k += 1;
    }
}

fn push_const(out: &mut String, c: &Const)
    ensures
        final(out)@ == old(out)@ + const_text(*c),
{
    match c {
        Const::Int(n) => {
            push_signed(out, *n);
        },
        Const::Float(t) => {
            out.append(t.as_str());
        },
        Const::String(t) => {
            let s = t.as_str();
            let n = s.unicode_len();
            let end = if n < SHOWN_CHARS {
                n
            } else {
                SHOWN_CHARS
            };
            out.append("'");
            let part = s.substring_char(0, end);
            assert(part@ =~= first(t@, SHOWN_CHARS as int));
            let shown = escape(part);
            out.append(shown.as_str());
            out.append("'");
            if n > SHOWN_CHARS {
                out.append("... (");
                let len = s.as_bytes().len();
                push_decimal(out, len as u64);
                out.append(" bytes)");
            }
        },
        Const::Binary { bytes, bit_len } => {
            let end = if bytes.len() < SHOWN_BYTES {
                bytes.len()
            } else {
                SHOWN_BYTES
            };
            out.append("<<");
            push_bytes(out, bytes, end);
            assert(bytes@.take(end as int) =~= first(bytes@, SHOWN_BYTES as int));
            if bytes.len() > SHOWN_BYTES {
                out.append(", ...");
            }
            out.append(">>");
            if bytes.len() > SHOWN_BYTES || *bit_len % 8 != 0 {
                out.append(" (");
                push_decimal(out, *bit_len);
                out.append(" bits)");
            }
        },
    }
    assert(out@ =~= old(out)@ + const_text(*c));
}

/// The lines of some constants.
fn push_consts(program: &Program, ids: &BTreeSet<u32>, out: &mut String)
    ensures
        final(out)@ == old(out)@ + consts_text(*program, ids@),
{
    let ghost before = out@;
    let ghost s = ids@;
    let q = in_order(ids);
    if q.len() == 0 {
        assert forall|c: u32| !s.contains(c) by {
            if s.contains(c) {
                assert(q@.contains(c));
            }
        }
        assert(out@ =~= before + consts_text(*program, s));
        return;
    }
    assert(q@.contains(q@[0]));
    out.append("\n; consts\n");
    let ghost head = "\n; consts\n"@;
    let mut k: usize = 0;
    let ghost mut at: nat = 0;
    assert(out@ =~= before + head + const_lines(*program, s, 0));
    while k < q.len()
        invariant
            k <= q@.len(),
            ascends(q@),
            forall|m: u32| #[trigger] q@.contains(m) <==> s.contains(m),
            at == (if k == 0 {
                0int
            } else {
                q@[k - 1] + 1
            }),
            out@ == before + head + const_lines(*program, s, at),
        decreases q@.len() - k,
    {
        let id = q[k];
        proof {
            assert forall|c: u32| at <= c < id implies !(#[trigger] s.contains(c)) by {
                between(q@, s, k as int, c);
            }
            no_consts_between(*program, s, at, id as nat);
            assert(q@.contains(q@[k as int]));
        }
        out.append("; c");
        push_decimal(out, id as u64);
        out.append(" ");
        if (id as usize) < program.consts.len() {
            push_const(out, &program.consts[id as usize]);
        } else {
            out.append("is not in the program");
        }
        out.append("\n");
        proof {
            at = (id + 1) as nat;
            assert(out@ =~= before + head + const_lines(*program, s, at));
        }
        k += 1;
    }
    proof {
        assert forall|c: u32| at <= c < 0x1_0000_0000 implies !(#[trigger] s.contains(c)) by {
            between(q@, s, k as int, c);
        }
        no_consts_between(*program, s, at, 0x1_0000_0000);
        assert(out@ =~= before + consts_text(*program, s));
    }
}

/// Nothing is in a set between two members that follow each other.
proof fn between(q: Seq<u32>, s: Set<u32>, k: int, c: u32)
    requires
        0 <= k <= q.len(),
        ascends(q),
        forall|m: u32| #[trigger] q.contains(m) <==> s.contains(m),
        k > 0 ==> q[k - 1] < c,
        k < q.len() ==> c < q[k],
    ensures
        !s.contains(c),
{
    if s.contains(c) {
        assert(q.contains(c));
        let i = q.index_of(c);
        if i < k - 1 {
            assert(q[i] < q[k - 1]);
        } else if i > k && k < q.len() {
            assert(q[k] < q[i]);
        }
    }
}

/// Some of the bodies load a constant.
pub open spec fn some_load(bodies: Seq<&CoreExpr>, c: u32) -> bool {
    exists|i: int| 0 <= i < bodies.len() && loads((#[trigger] bodies[i]).view(), c)
}

/// Some of the bodies name a constructor of a type.
pub open spec fn some_make(bodies: Seq<&CoreExpr>, t: i32) -> bool {
    exists|i: int| 0 <= i < bodies.len() && makes((#[trigger] bodies[i]).view(), t)
}

/// The constants that some bodies load, and the types whose constructors they name.
fn mentioned(bodies: &Vec<&CoreExpr>) -> (r: (BTreeSet<u32>, BTreeSet<i32>))
    ensures
        forall|c: u32| #[trigger] r.0@.contains(c) <==> some_load(bodies@, c),
        forall|t: i32| #[trigger] r.1@.contains(t) <==> some_make(bodies@, t),
{
    let mut consts: BTreeSet<u32> = BTreeSet::new();
    let mut types: BTreeSet<i32> = BTreeSet::new();
    let mut k: usize = 0;
    while k < bodies.len()
        invariant
            k <= bodies@.len(),
            forall|c: u32| #[trigger] consts@.contains(c) <==> some_load(bodies@.take(k as int), c),
            forall|t: i32| #[trigger] types@.contains(t) <==> some_make(bodies@.take(k as int), t),
        decreases bodies@.len() - k,
    {
        bodies[k].mentions(&mut consts, &mut types);
        proof {
            let (a, b) = (bodies@.take(k as int), bodies@.take(k + 1));
            assert(b[k as int] == bodies@[k as int]);
            assert forall|c: u32| some_load(b, c) <==> some_load(a, c) || loads(bodies@[k as int].view(), c) by {
                if some_load(a, c) {
                    let i = choose|i: int| 0 <= i < a.len() && loads((#[trigger] a[i]).view(), c);
                    assert(b[i] == a[i]);
                }
                if some_load(b, c) {
                    let i = choose|i: int| 0 <= i < b.len() && loads((#[trigger] b[i]).view(), c);
                    if i < k {
                        assert(a[i] == b[i]);
                    }
                }
            }
            assert forall|t: i32| some_make(b, t) <==> some_make(a, t) || makes(bodies@[k as int].view(), t) by {
                if some_make(a, t) {
                    let i = choose|i: int| 0 <= i < a.len() && makes((#[trigger] a[i]).view(), t);
                    assert(b[i] == a[i]);
                }
                if some_make(b, t) {
                    let i = choose|i: int| 0 <= i < b.len() && makes((#[trigger] b[i]).view(), t);
                    if i < k {
                        assert(a[i] == b[i]);
                    }
                }
            }
        }
        k += 1;
    }
    assert(bodies@.take(k as int) =~= bodies@);
    (consts, types)
}

/// One line for each constant that `bodies` load.
pub fn consts(program: &Program, bodies: &Vec<&CoreExpr>, out: &mut String)
    ensures
        final(out)@ == old(out)@ + consts_text(*program, Set::new(|c: u32| some_load(bodies@, c))),
{
    let (ids, _) = mentioned(bodies);
    assert(ids@ =~= Set::new(|c: u32| some_load(bodies@, c)));
    push_consts(program, &ids, out);
}

/// Names with a comma between each two.
pub open spec fn joined(names: Seq<String>) -> Seq<char>
    decreases names.len(),
{
    if names.len() == 0 {
        Seq::empty()
    } else if names.len() == 1 {
        names[0]@
    } else {
        joined(names.drop_last()) + ", "@ + names.last()@
    }
}

/// A constructor as a listing shows it.
pub open spec fn variant_text(i: int, v: VariantNames) -> Seq<char> {
    (if i == 0 {
        " "@
    } else {
        ", "@
    }) + "."@ + decimal(i as nat) + " "@ + v.name@ + (if v.fields@.len() == 0 {
        Seq::empty()
    } else {
        "("@ + joined(v.fields@) + ")"@
    })
}

/// The first `n` constructors of a type as a listing shows them.
pub open spec fn variants_text(vs: Seq<VariantNames>, n: nat) -> Seq<char>
    decreases n,
{
    if n == 0 {
        Seq::empty()
    } else {
        variants_text(vs, (n - 1) as nat) + variant_text(n - 1, vs[n - 1])
    }
}

/// The line of a type.
pub open spec fn type_line(p: Program, t: i32) -> Seq<char> {
    "; "@ + signed(t as int) + (if p.types@.contains_key(t) {
        " "@ + p.types@[t].name@ + ":"@ + variants_text(p.types@[t].variants@, p.types@[t].variants@.len())
    } else {
        " has no names"@
    }) + "\n"@
}

/// The type that is `n` after the lowest.
pub open spec fn nth_type(n: nat) -> i32 {
    (n - 0x8000_0000) as i32
}

/// The lines of the types of `s` among the `n` lowest, the lowest first.
pub open spec fn type_lines(p: Program, s: Set<i32>, n: nat) -> Seq<char>
    decreases n,
{
    if n == 0 {
        Seq::empty()
    } else {
        type_lines(p, s, (n - 1) as nat) + (if n <= 0x1_0000_0000 && s.contains(nth_type((n - 1) as nat)) {
            type_line(p, nth_type((n - 1) as nat))
        } else {
            Seq::empty()
        })
    }
}

/// The part of a listing with the types of `s`.
pub open spec fn types_text(p: Program, s: Set<i32>) -> Seq<char> {
    if forall|t: i32| !s.contains(t) {
        Seq::empty()
    } else {
        "\n; types\n"@ + type_lines(p, s, 0x1_0000_0000)
    }
}

/// Types that are not in the set add no line.
proof fn no_types_between(p: Program, s: Set<i32>, a: nat, b: nat)
    requires
        a <= b <= 0x1_0000_0000,
        forall|t: i32| a <= t + 0x8000_0000 < b ==> !(#[trigger] s.contains(t)),
    ensures
        type_lines(p, s, b) == type_lines(p, s, a),
    decreases b,
{
    if a < b {
        no_types_between(p, s, a, (b - 1) as nat);
        assert(!s.contains(nth_type((b - 1) as nat)));
        assert(type_lines(p, s, b) =~= type_lines(p, s, (b - 1) as nat));
    }
}

/// Each number is less than the next.
pub open spec fn ascends_signed(q: Seq<i32>) -> bool {
    forall|i: int, j: int| 0 <= i < j < q.len() ==> q[i] < q[j]
}

/// The members of a set, smallest first, each once.
fn types_in_order(s: &BTreeSet<i32>) -> (out: Vec<i32>)
    ensures
        ascends_signed(out@),
        forall|m: i32| #[trigger] out@.contains(m) <==> s@.contains(m),
{
    let mut out: Vec<i32> = Vec::new();
    let ghost keys: Seq<&i32> = spec_btree_keys_iter(s).remaining();
    for n in iter: s.iter()
        invariant
            iter.seq() == keys,
            out@.len() == iter.index(),
            forall|k: int| 0 <= k < out@.len() ==> out@[k] == *keys[k],
    {
        out.push(*n);
    }
    proof {
        assert(out@.len() == keys.len());
        assert(obeys_cmp::<i32>());
        assert(obeys_cmp::<&i32>());
        assert(keys.unref().to_set() == s@);
        assert(increasing_seq(keys));
        assert forall|i: int, j: int| 0 <= i < j < out@.len() implies out@[i] < out@[j] by {
            assert(OrdSpec::cmp_spec(&keys[i], &keys[j]) is Less);
        }
        assert forall|m: i32| #[trigger] out@.contains(m) <==> s@.contains(m) by {
            if out@.contains(m) {
                let k = out@.index_of(m);
                assert(keys.unref()[k] == m);
                assert(keys.unref().contains(m));
            }
            if s@.contains(m) {
                assert(keys.unref().contains(m));
                let k = choose|k: int| 0 <= k < keys.unref().len() && keys.unref()[k] == m;
                assert(out@[k] == m);
            }
        }
    }
    out
}

/// Nothing is in a set between two members that follow each other.
proof fn no_type_between(q: Seq<i32>, s: Set<i32>, k: int, t: i32)
    requires
        0 <= k <= q.len(),
        ascends_signed(q),
        forall|m: i32| #[trigger] q.contains(m) <==> s.contains(m),
        k > 0 ==> q[k - 1] < t,
        k < q.len() ==> t < q[k],
    ensures
        !s.contains(t),
{
    if s.contains(t) {
        assert(q.contains(t));
        let i = q.index_of(t);
        if i < k - 1 {
            assert(q[i] < q[k - 1]);
        } else if i > k && k < q.len() {
            assert(q[k] < q[i]);
        }
    }
}

fn push_joined(out: &mut String, names: &Vec<String>)
    ensures
        final(out)@ == old(out)@ + joined(names@),
{
    let ghost before = out@;
    let mut k: usize = 0;
    assert(out@ =~= before + joined(names@.take(0)));
    while k < names.len()
        invariant
            k <= names@.len(),
            out@ == before + joined(names@.take(k as int)),
        decreases names@.len() - k,
    {
        if k > 0 {
            out.append(", ");
        }
        out.append(names[k].as_str());
        proof {
            let t = names@.take(k + 1);
            assert(t.drop_last() =~= names@.take(k as int));
            assert(t.last() == names@[k as int]);
            assert(out@ =~= before + joined(t));
        }
        k += 1;
    }
    assert(names@.take(k as int) =~= names@);
}

fn push_variants(out: &mut String, vs: &Vec<VariantNames>)
    ensures
        final(out)@ == old(out)@ + variants_text(vs@, vs@.len()),
{
    let ghost before = out@;
    let mut i: usize = 0;
    assert(out@ =~= before + variants_text(vs@, 0));
    while i < vs.len()
        invariant
            i <= vs@.len(),
            out@ == before + variants_text(vs@, i as nat),
        decreases vs@.len() - i,
    {
        if i == 0 {
            out.append(" ");
        } else {
            out.append(", ");
        }
        out.append(".");
        push_decimal(out, i as u64);
        out.append(" ");
        out.append(vs[i].name.as_str());
        if vs[i].fields.len() > 0 {
            out.append("(");
            push_joined(out, &vs[i].fields);
            out.append(")");
        }
        assert(out@ =~= before + variants_text(vs@, (i + 1) as nat));
        i += 1;
    }
}

fn push_type(program: &Program, id: i32, out: &mut String)
    ensures
        final(out)@ == old(out)@ + type_line(*program, id),
{
    out.append("; ");
    push_signed(out, id as i64);
    match program.types.get(&id) {
        Some(t) => {
            out.append(" ");
            out.append(t.name.as_str());
            out.append(":");
            push_variants(out, &t.variants);
        },
        None => {
            out.append(" has no names");
        },
    }
    out.append("\n");
    assert(out@ =~= old(out)@ + type_line(*program, id));
}

/// The lines of some types.
fn push_types(program: &Program, ids: &BTreeSet<i32>, out: &mut String)
    ensures
        final(out)@ == old(out)@ + types_text(*program, ids@),
{
    let ghost before = out@;
    let ghost s = ids@;
    let q = types_in_order(ids);
    if q.len() == 0 {
        assert forall|t: i32| !s.contains(t) by {
            if s.contains(t) {
                assert(q@.contains(t));
            }
        }
        assert(out@ =~= before + types_text(*program, s));
        return;
    }
    assert(q@.contains(q@[0]));
    out.append("\n; types\n");
    let ghost head = "\n; types\n"@;
    let mut k: usize = 0;
    let ghost mut at: nat = 0;
    assert(out@ =~= before + head + type_lines(*program, s, 0));
    while k < q.len()
        invariant
            k <= q@.len(),
            ascends_signed(q@),
            forall|m: i32| #[trigger] q@.contains(m) <==> s.contains(m),
            at == (if k == 0 {
                0int
            } else {
                q@[k - 1] + 0x8000_0001
            }),
            out@ == before + head + type_lines(*program, s, at),
        decreases q@.len() - k,
    {
        let id = q[k];
        let ghost n = (id + 0x8000_0000) as nat;
        proof {
            if k > 0 {
                assert(q@[k - 1] < q@[k as int]);
            }
            assert forall|t: i32| at <= t + 0x8000_0000 < n implies !(#[trigger] s.contains(t)) by {
                no_type_between(q@, s, k as int, t);
            }
            no_types_between(*program, s, at, n);
            assert(q@.contains(q@[k as int]));
            assert(nth_type(n) == id);
        }
        push_type(program, id, out);
        proof {
            at = n + 1;
            assert(out@ =~= before + head + type_lines(*program, s, at));
        }
        k += 1;
    }
    proof {
        assert forall|t: i32| at <= t + 0x8000_0000 < 0x1_0000_0000 implies !(#[trigger] s.contains(t)) by {
            no_type_between(q@, s, k as int, t);
        }
        no_types_between(*program, s, at, 0x1_0000_0000);
        assert(out@ =~= before + types_text(*program, s));
    }
}

/// One line for each type that a constructor in `bodies` belongs to.
pub fn types(program: &Program, bodies: &Vec<&CoreExpr>, out: &mut String)
    ensures
        final(out)@ == old(out)@ + types_text(*program, Set::new(|t: i32| some_make(bodies@, t))),
{
    let (_, ids) = mentioned(bodies);
    assert(ids@ =~= Set::new(|t: i32| some_make(bodies@, t)));
    push_types(program, &ids, out);
}

/// How many of the first `n` functions are the entry file's.
pub open spec fn own_fns(fns: Seq<ProgramFn>, n: nat) -> nat
    decreases n,
{
    if n == 0 {
        0
    } else {
        own_fns(fns, (n - 1) as nat) + (if fns[n - 1].module@ == entry_module() {
            1nat
        } else {
            0
        })
    }
}

/// The program starts at a function that it has, if it starts at one.
pub open spec fn starts_well(p: Program) -> bool {
    match p.main {
        Some(main) => main.0 < p.fns@.len(),
        None => true,
    }
}

/// The line on a program's shape.
pub open spec fn summary_text(p: Program) -> Seq<char> {
    "; "@ + decimal(p.fns@.len()) + " functions, "@ + decimal(own_fns(p.fns@, p.fns@.len())) + " from this file; "@ + decimal(
        p.inits@.len(),
    ) + " module inits; "@ + decimal(p.globals as nat) + " globals; "@ + (match p.main {
        Some(main) => "starts at fn#"@ + decimal(main.0 as nat) + " ("@ + p.fns@[main.0 as int].name@ + ")"@,
        None => "runs its toplevel"@,
    }) + "\n"@
}

/// Whether a function is the entry file's.
fn is_own(f: &ProgramFn) -> (yes: bool)
    ensures
        yes == (f.module@ == entry_module()),
{
    let entry = "main".to_owned();
    f.module == entry
}

/// One line on the program's shape, so that a listing of part of it still says what it was
/// taken from.
pub fn summary(program: &Program) -> (out: String)
    requires
        starts_well(*program),
    ensures
        out@ == summary_text(*program),
{
    let fns = &program.fns;
    let mut own: usize = 0;
    let mut k: usize = 0;
    while k < fns.len()
        invariant
            k <= fns@.len(),
            own <= k,
            own == own_fns(fns@, k as nat),
        decreases fns@.len() - k,
    {
        if is_own(&fns[k]) {
            own += 1;
        }
        k += 1;
    }
    let mut out = String::new();
    out.append("; ");
    push_decimal(&mut out, fns.len() as u64);
    out.append(" functions, ");
    push_decimal(&mut out, own as u64);
    out.append(" from this file; ");
    push_decimal(&mut out, program.inits.len() as u64);
    out.append(" module inits; ");
    push_decimal(&mut out, program.globals as u64);
    out.append(" globals; ");
    match program.main {
        Some(main) => {
            out.append("starts at fn#");
            push_decimal(&mut out, main.0 as u64);
            out.append(" (");
            out.append(fns[main.0 as usize].name.as_str());
            out.append(")");
        },
        None => {
            out.append("runs its toplevel");
        },
    }
    out.append("\n");
    assert(out@ =~= summary_text(*program));
    out
}

/// A listing shows a function.
pub open spec fn is_kept(f: ProgramFn, filter: Filter) -> bool {
    match filter {
        Filter::Entry => f.module@ == entry_module(),
        Filter::Named(needle) => has(f.name@, needle@),
    }
}

/// The functions that a listing shows, of the first `n`: each behind its number.
pub open spec fn fns_text(fns: Seq<ProgramFn>, filter: Filter, n: nat) -> Seq<char>
    decreases n,
{
    if n == 0 {
        Seq::empty()
    } else {
        fns_text(fns, filter, (n - 1) as nat) + (if is_kept(fns[n - 1], filter) {
            "\n; fn#"@ + decimal((n - 1) as nat) + "\n"@ + fns[n - 1].text@
        } else {
            Seq::empty()
        })
    }
}

/// The bodies that a listing shows, of the first `n` functions.
pub open spec fn kept_bodies(fns: Seq<ProgramFn>, filter: Filter, n: nat) -> Seq<&CoreExpr>
    decreases n,
{
    if n == 0 {
        Seq::empty()
    } else if is_kept(fns[n - 1], filter) {
        kept_bodies(fns, filter, (n - 1) as nat).push(&fns[n - 1].core.body)
    } else {
        kept_bodies(fns, filter, (n - 1) as nat)
    }
}

/// The bodies that a listing shows.
pub open spec fn shown_bodies(p: Program, filter: Filter) -> Seq<&CoreExpr> {
    let own = kept_bodies(p.fns@, filter, p.fns@.len());
    if filter is Entry {
        own.push(&p.toplevel.core.body)
    } else {
        own
    }
}

/// The listing of a program, where there is anything to list.
pub open spec fn listing_text(p: Program, filter: Filter) -> Seq<char> {
    let bodies = shown_bodies(p, filter);
    summary_text(p) + fns_text(p.fns@, filter, p.fns@.len()) + (if filter is Entry {
        "\n; toplevel\n"@ + p.toplevel.text@
    } else {
        Seq::empty()
    }) + consts_text(p, Set::new(|c: u32| some_load(bodies, c))) + types_text(p, Set::new(|t: i32| some_make(bodies, t)))
}

/// The listing, or `None` when `filter` matches no function.
///
/// Each function comes after its number, by which a call elsewhere in the listing names it.
/// The listing ends with the values of the constants that it loads, and the names of the
/// constructors that it shows.
pub fn listing(program: &Program, filter: Filter<'_>) -> (r: Option<String>)
    requires
        starts_well(*program),
    ensures
        r is Some <==> shown_bodies(*program, filter).len() > 0,
        match r {
            Some(out) => out@ == listing_text(*program, filter),
            None => true,
        },
{
    let mut out = summary(program);
    let ghost head = out@;
    let mut shown: Vec<&CoreExpr> = Vec::new();
    let fns = &program.fns;
    let mut i: usize = 0;
    assert(out@ =~= head + fns_text(fns@, filter, 0));
    while i < fns.len()
        invariant
            i <= fns@.len(),
            out@ == head + fns_text(fns@, filter, i as nat),
            shown@ == kept_bodies(fns@, filter, i as nat),
        decreases fns@.len() - i,
    {
        let f = &fns[i];
        let keep = match filter {
            Filter::Entry => is_own(f),
            Filter::Named(needle) => contains(f.name.as_str(), needle),
        };
        if keep {
            out.append("\n; fn#");
            push_decimal(&mut out, i as u64);
            out.append("\n");
            out.append(f.text.as_str());
            shown.push(&f.core.body);
        }
        assert(out@ =~= head + fns_text(fns@, filter, (i + 1) as nat));
        i += 1;
    }
    match filter {
        Filter::Entry => {
            out.append("\n; toplevel\n");
            out.append(program.toplevel.text.as_str());
            shown.push(&program.toplevel.core.body);
        },
        Filter::Named(_) => {},
    }
    if shown.len() == 0 {
        return None;
    }
    consts(program, &shown, &mut out);
    types(program, &shown, &mut out);
    assert(out@ =~= listing_text(*program, filter));
    Some(out)
}

} // verus!

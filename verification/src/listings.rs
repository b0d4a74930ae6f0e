//! What a listing holds: each function behind its own number, each constant and each type that it
//! mentions by its own, and all of them in order.
use vstd::prelude::*;
use vstd::utf8::encode_utf8;

use crate::core_ir::mentions::{loads, makes};
use crate::dis::{
    const_line, const_lines, const_text, consts_text, fns_text, is_kept, joined, kept_bodies, listing_text, nth_type, own_fns,
    shown_bodies, signed, some_load, some_make, summary_text, type_line, type_lines, types_text, variants_text, Const, Filter,
    Program, ProgramFn, VariantNames,
};
use crate::text::{decimal, has, has_at};

verus! {

/// A text holds two others, one before the other, that do not overlap.
pub open spec fn holds_both(text: Seq<char>, one: Seq<char>, other: Seq<char>) -> bool {
    exists|a: Seq<char>, b: Seq<char>, c: Seq<char>| text == #[trigger] (a + one + b + other + c)
}

/// A text holds another.
pub open spec fn holds(text: Seq<char>, part: Seq<char>) -> bool {
    exists|a: Seq<char>, b: Seq<char>| text == #[trigger] (a + part + b)
}

/// What is held is still held with more round it.
proof fn more_round_it(text: Seq<char>, part: Seq<char>, before: Seq<char>, behind: Seq<char>)
    requires
        holds(text, part),
    ensures
        holds(before + text + behind, part),
{
    let (a, b) = choose|a: Seq<char>, b: Seq<char>| text == #[trigger] (a + part + b);
    assert(before + text + behind =~= (before + a) + part + (b + behind));
}

proof fn more_round_both(text: Seq<char>, one: Seq<char>, other: Seq<char>, before: Seq<char>, behind: Seq<char>)
    requires
        holds_both(text, one, other),
    ensures
        holds_both(before + text + behind, one, other),
{
    let (a, b, c) = choose|a: Seq<char>, b: Seq<char>, c: Seq<char>| text == #[trigger] (a + one + b + other + c);
    assert(before + text + behind =~= (before + a) + one + b + other + (c + behind));
}

/// What is held in a text, and what follows the text.
proof fn one_and_the_next(text: Seq<char>, one: Seq<char>, other: Seq<char>)
    requires
        holds(text, one),
    ensures
        holds_both(text + other, one, other),
{
    let (a, b) = choose|a: Seq<char>, b: Seq<char>| text == #[trigger] (a + one + b);
    let none = Seq::<char>::empty();
    assert(text + other =~= a + one + b + other + none);
}

proof fn the_last(text: Seq<char>, part: Seq<char>)
    ensures
        holds(text + part, part),
{
    let none = Seq::<char>::empty();
    assert(text + part =~= text + part + none);
}

/// A function in a listing: its number in the program's own table, and how it is written.
pub open spec fn numbered(fns: Seq<ProgramFn>, i: int) -> Seq<char> {
    "\n; fn#"@ + decimal(i as nat) + "\n"@ + fns[i].text@
}

proof fn functions_stay(fns: Seq<ProgramFn>, filter: Filter, i: int, n: nat)
    requires
        0 <= i < n <= fns.len(),
        is_kept(fns[i], filter),
    ensures
        holds(fns_text(fns, filter, n), numbered(fns, i)),
    decreases n,
{
    let before = fns_text(fns, filter, (n - 1) as nat);
    if i == n - 1 {
        the_last(before, numbered(fns, i));
        assert(fns_text(fns, filter, n) =~= before + numbered(fns, i));
    } else {
        functions_stay(fns, filter, i, (n - 1) as nat);
        let more = if is_kept(fns[n - 1], filter) {
            numbered(fns, n - 1)
        } else {
            Seq::empty()
        };
        let none = Seq::<char>::empty();
        more_round_it(before, numbered(fns, i), none, more);
        assert(none + before + more =~= fns_text(fns, filter, n));
    }
}

proof fn functions_stay_in_order(fns: Seq<ProgramFn>, filter: Filter, i: int, j: int, n: nat)
    requires
        0 <= i < j < n <= fns.len(),
        is_kept(fns[i], filter),
        is_kept(fns[j], filter),
    ensures
        holds_both(fns_text(fns, filter, n), numbered(fns, i), numbered(fns, j)),
    decreases n,
{
    let before = fns_text(fns, filter, (n - 1) as nat);
    if j == n - 1 {
        functions_stay(fns, filter, i, j as nat);
        one_and_the_next(before, numbered(fns, i), numbered(fns, j));
        assert(fns_text(fns, filter, n) =~= before + numbered(fns, j));
    } else {
        functions_stay_in_order(fns, filter, i, j, (n - 1) as nat);
        let more = if is_kept(fns[n - 1], filter) {
            numbered(fns, n - 1)
        } else {
            Seq::empty()
        };
        let none = Seq::<char>::empty();
        more_round_both(before, numbered(fns, i), numbered(fns, j), none, more);
        assert(none + before + more =~= fns_text(fns, filter, n));
    }
}

/// Every function that the filter keeps is in the listing, behind the number by which the program
/// calls it: its index in the program's own table, whatever else is shown.
pub proof fn each_function_is_behind_its_number(p: Program, filter: Filter, i: int)
    requires
        0 <= i < p.fns@.len(),
        is_kept(p.fns@[i], filter),
    ensures
        holds(listing_text(p, filter), "\n; fn#"@ + decimal(i as nat) + "\n"@ + p.fns@[i].text@),
{
    functions_stay(p.fns@, filter, i, p.fns@.len());
    let (head, own) = (summary_text(p), fns_text(p.fns@, filter, p.fns@.len()));
    let rest = listing_text(p, filter).skip((head + own).len() as int);
    assert(listing_text(p, filter) =~= head + own + rest);
    more_round_it(own, numbered(p.fns@, i), head, rest);
}

/// Functions are shown in the order of the program's table.
pub proof fn functions_are_in_order(p: Program, filter: Filter, i: int, j: int)
    requires
        0 <= i < j < p.fns@.len(),
        is_kept(p.fns@[i], filter),
        is_kept(p.fns@[j], filter),
    ensures
        holds_both(
            listing_text(p, filter),
            "\n; fn#"@ + decimal(i as nat) + "\n"@ + p.fns@[i].text@,
            "\n; fn#"@ + decimal(j as nat) + "\n"@ + p.fns@[j].text@,
        ),
{
    functions_stay_in_order(p.fns@, filter, i, j, p.fns@.len());
    let (head, own) = (summary_text(p), fns_text(p.fns@, filter, p.fns@.len()));
    let rest = listing_text(p, filter).skip((head + own).len() as int);
    assert(listing_text(p, filter) =~= head + own + rest);
    more_round_both(own, numbered(p.fns@, i), numbered(p.fns@, j), head, rest);
}

/// Functions that are not kept add nothing.
pub proof fn others_are_not_shown(fns: Seq<ProgramFn>, filter: Filter, n: nat)
    requires
        n <= fns.len(),
        forall|i: int| 0 <= i < n ==> !is_kept(#[trigger] fns[i], filter),
    ensures
        fns_text(fns, filter, n).len() == 0,
        kept_bodies(fns, filter, n).len() == 0,
    decreases n,
{
    if n > 0 {
        others_are_not_shown(fns, filter, (n - 1) as nat);
        assert(!is_kept(fns[n - 1], filter));
    }
}

/// A listing of the entry file keeps the functions of the module `main` and no others; one by name
/// keeps those whose name is the needle with anything before and behind it.
pub proof fn what_is_kept(f: ProgramFn, needle: &str)
    ensures
        is_kept(f, Filter::Entry) <==> f.module@ == "main"@,
        is_kept(f, Filter::Named(needle)) <==> holds(f.name@, needle@),
{
    let (text, part) = (f.name@, needle@);
    if has(text, part) {
        let i = choose|i: int| #[trigger] has_at(text, part, i);
        let (a, b) = (text.take(i), text.skip(i + part.len()));
        assert(text =~= a + part + b);
    }
    if holds(text, part) {
        let (a, b) = choose|a: Seq<char>, b: Seq<char>| text == #[trigger] (a + part + b);
        assert((a + part + b).subrange(a.len() as int, (a.len() + part.len()) as int) =~= part);
        assert(has_at(text, part, a.len() as int));
    }
}

/// The listing of the entry file ends its functions with the toplevel.
pub proof fn the_toplevel_is_shown(p: Program)
    ensures
        holds(listing_text(p, Filter::Entry), "\n; toplevel\n"@ + p.toplevel.text@),
        shown_bodies(p, Filter::Entry).len() > 0,
{
    let (head, own) = (summary_text(p), fns_text(p.fns@, Filter::Entry, p.fns@.len()));
    let top = "\n; toplevel\n"@ + p.toplevel.text@;
    let rest = listing_text(p, Filter::Entry).skip((head + own + top).len() as int);
    assert(listing_text(p, Filter::Entry) =~= (head + own) + top + rest);
}

/// The bodies that a listing looks through are those of the functions that it shows.
pub proof fn bodies_of_what_is_kept(fns: Seq<ProgramFn>, filter: Filter, n: nat, c: u32, t: i32)
    requires
        n <= fns.len(),
    ensures
        some_load(kept_bodies(fns, filter, n), c) <==> exists|i: int|
            0 <= i < n && is_kept(#[trigger] fns[i], filter) && loads(fns[i].core.body.view(), c),
        some_make(kept_bodies(fns, filter, n), t) <==> exists|i: int|
            0 <= i < n && is_kept(#[trigger] fns[i], filter) && makes(fns[i].core.body.view(), t),
    decreases n,
{
    if n > 0 {
        let m = (n - 1) as nat;
        bodies_of_what_is_kept(fns, filter, m, c, t);
        let (x, y) = (kept_bodies(fns, filter, m), kept_bodies(fns, filter, n));
        if some_load(x, c) {
            let i = choose|i: int| 0 <= i < x.len() && loads((#[trigger] x[i]).view(), c);
            assert(y[i] == x[i]);
            let j = choose|i: int| 0 <= i < m && is_kept(#[trigger] fns[i], filter) && loads(fns[i].core.body.view(), c);
            assert(is_kept(fns[j], filter));
        }
        if some_load(y, c) {
            let i = choose|i: int| 0 <= i < y.len() && loads((#[trigger] y[i]).view(), c);
            if i < x.len() {
                assert(x[i] == y[i]);
            } else {
                assert(is_kept(fns[n - 1], filter));
            }
        }
        if is_kept(fns[n - 1], filter) {
            assert(y[x.len() as int].view() == fns[n - 1].core.body.view());
        }
        if some_make(x, t) {
            let i = choose|i: int| 0 <= i < x.len() && makes((#[trigger] x[i]).view(), t);
            assert(y[i] == x[i]);
            let j = choose|i: int| 0 <= i < m && is_kept(#[trigger] fns[i], filter) && makes(fns[i].core.body.view(), t);
            assert(is_kept(fns[j], filter));
        }
        if some_make(y, t) {
            let i = choose|i: int| 0 <= i < y.len() && makes((#[trigger] y[i]).view(), t);
            if i < x.len() {
                assert(x[i] == y[i]);
            } else {
                assert(is_kept(fns[n - 1], filter));
            }
        }
    }
}

/// The text of the constants has a line for each of them, behind its own number in the program's
/// pool.
pub proof fn each_constant_has_its_line(p: Program, s: Set<u32>, c: u32)
    requires
        s.contains(c),
    ensures
        c < p.consts@.len() ==> holds(consts_text(p, s), "; c"@ + decimal(c as nat) + " "@ + const_text(p.consts@[c as int]) + "\n"@),
        c >= p.consts@.len() ==> holds(consts_text(p, s), "; c"@ + decimal(c as nat) + " "@ + "is not in the program"@ + "\n"@),
{
    constants_stay(p, s, c, 0x1_0000_0000);
    let none = Seq::<char>::empty();
    let all = const_lines(p, s, 0x1_0000_0000);
    more_round_it(all, const_line(p, c), "\n; consts\n"@, none);
    assert("\n; consts\n"@ + all + none =~= consts_text(p, s));
}

proof fn constants_stay(p: Program, s: Set<u32>, c: u32, n: nat)
    requires
        s.contains(c),
        c < n <= 0x1_0000_0000,
    ensures
        holds(const_lines(p, s, n), const_line(p, c)),
    decreases n,
{
    let before = const_lines(p, s, (n - 1) as nat);
    if c == n - 1 {
        the_last(before, const_line(p, c));
    } else {
        constants_stay(p, s, c, (n - 1) as nat);
        let more = const_lines(p, s, n).skip(before.len() as int);
        let none = Seq::<char>::empty();
        more_round_it(before, const_line(p, c), none, more);
        assert(none + before + more =~= const_lines(p, s, n));
    }
}

/// The constants come in the order of their numbers.
pub proof fn constants_are_in_order(p: Program, s: Set<u32>, c: u32, d: u32, n: nat)
    requires
        s.contains(c),
        s.contains(d),
        c < d < n <= 0x1_0000_0000,
    ensures
        holds_both(const_lines(p, s, n), const_line(p, c), const_line(p, d)),
    decreases n,
{
    let before = const_lines(p, s, (n - 1) as nat);
    if d == n - 1 {
        constants_stay(p, s, c, d as nat);
        one_and_the_next(before, const_line(p, c), const_line(p, d));
    } else {
        constants_are_in_order(p, s, c, d, (n - 1) as nat);
        let more = const_lines(p, s, n).skip(before.len() as int);
        let none = Seq::<char>::empty();
        more_round_both(before, const_line(p, c), const_line(p, d), none, more);
        assert(none + before + more =~= const_lines(p, s, n));
    }
}

/// A listing that loads no constant has none, and one that names no constructor has no type.
pub proof fn nothing_is_listed_for_nothing(p: Program, s: Set<u32>, t: Set<i32>)
    ensures
        (forall|c: u32| !s.contains(c)) ==> consts_text(p, s).len() == 0,
        (forall|i: i32| !t.contains(i)) ==> types_text(p, t).len() == 0,
{
}

/// A number shows in decimal with its sign, a float as it is held, a string of up to 48 characters
/// whole, and a longer one by its first 48 with the number of its bytes.
pub proof fn constants_show_what_they_are(n: i64, t: String)
    ensures
        n >= 0 ==> const_text(Const::Int(n)) == decimal(n as nat),
        n < 0 ==> const_text(Const::Int(n)) == "-"@ + decimal((-n) as nat),
        const_text(Const::Float(t)) == t@,
        t@.len() <= 48 ==> const_text(Const::String(t)) == "'"@ + crate::dis::escaped(t@) + "'"@,
        t@.len() > 48 ==> const_text(Const::String(t)) == "'"@ + crate::dis::escaped(t@.take(48)) + "'... ("@ + decimal(
            encode_utf8(t@).len(),
        ) + " bytes)"@,
{
    if t@.len() <= 48 {
        assert(const_text(Const::String(t)) =~= "'"@ + crate::dis::escaped(t@) + "'"@);
    } else {
        reveal_strlit("'... (");
        reveal_strlit("'");
        reveal_strlit("... (");
        assert("'"@ + "... ("@ =~= "'... ("@);
        assert(const_text(Const::String(t)) =~= "'"@ + crate::dis::escaped(t@.take(48)) + ("'"@ + "... ("@) + decimal(
            encode_utf8(t@).len(),
        ) + " bytes)"@);
    }
}

/// The text of the types has a line for each of them, with its own number, its own name and its
/// constructors.
pub proof fn each_type_has_its_line(p: Program, s: Set<i32>, t: i32)
    requires
        s.contains(t),
    ensures
        p.types@.contains_key(t) ==> holds(
            types_text(p, s),
            "; "@ + signed(t as int) + " "@ + p.types@[t].name@ + ":"@ + variants_text(
                p.types@[t].variants@,
                p.types@[t].variants@.len(),
            ) + "\n"@,
        ),
        !p.types@.contains_key(t) ==> holds(types_text(p, s), "; "@ + signed(t as int) + " has no names\n"@),
{
    let n = (t + 0x8000_0000) as nat;
    assert(nth_type(n) == t);
    types_stay(p, s, t, 0x1_0000_0000);
    let none = Seq::<char>::empty();
    let all = type_lines(p, s, 0x1_0000_0000);
    more_round_it(all, type_line(p, t), "\n; types\n"@, none);
    assert("\n; types\n"@ + all + none =~= types_text(p, s));
    if p.types@.contains_key(t) {
        assert(type_line(p, t) =~= "; "@ + signed(t as int) + " "@ + p.types@[t].name@ + ":"@ + variants_text(
            p.types@[t].variants@,
            p.types@[t].variants@.len(),
        ) + "\n"@);
    } else {
        reveal_strlit(" has no names\n");
        reveal_strlit(" has no names");
        reveal_strlit("\n");
        assert(" has no names"@ + "\n"@ =~= " has no names\n"@);
        assert(type_line(p, t) =~= "; "@ + signed(t as int) + (" has no names"@ + "\n"@));
    }
}

proof fn types_stay(p: Program, s: Set<i32>, t: i32, n: nat)
    requires
        s.contains(t),
        t + 0x8000_0000 < n <= 0x1_0000_0000,
    ensures
        holds(type_lines(p, s, n), type_line(p, t)),
    decreases n,
{
    let before = type_lines(p, s, (n - 1) as nat);
    if t + 0x8000_0000 == n - 1 {
        assert(nth_type((n - 1) as nat) == t);
        the_last(before, type_line(p, t));
    } else {
        types_stay(p, s, t, (n - 1) as nat);
        let more = type_lines(p, s, n).skip(before.len() as int);
        let none = Seq::<char>::empty();
        more_round_it(before, type_line(p, t), none, more);
        assert(none + before + more =~= type_lines(p, s, n));
    }
}

/// The types come in the order of their numbers, the negative ones first.
pub proof fn types_are_in_order(p: Program, s: Set<i32>, t: i32, u: i32, n: nat)
    requires
        s.contains(t),
        s.contains(u),
        t < u,
        u + 0x8000_0000 < n <= 0x1_0000_0000,
    ensures
        holds_both(type_lines(p, s, n), type_line(p, t), type_line(p, u)),
    decreases n,
{
    let before = type_lines(p, s, (n - 1) as nat);
    if u + 0x8000_0000 == n - 1 {
        assert(nth_type((n - 1) as nat) == u);
        types_stay(p, s, t, (n - 1) as nat);
        one_and_the_next(before, type_line(p, t), type_line(p, u));
    } else {
        types_are_in_order(p, s, t, u, (n - 1) as nat);
        let more = type_lines(p, s, n).skip(before.len() as int);
        let none = Seq::<char>::empty();
        more_round_both(before, type_line(p, t), type_line(p, u), none, more);
        assert(none + before + more =~= type_lines(p, s, n));
    }
}

/// A constructor shows behind its own tag, with the names of its fields where it has any.
pub proof fn each_constructor_is_behind_its_tag(vs: Seq<VariantNames>, i: int, n: nat)
    requires
        0 <= i < n <= vs.len(),
    ensures
        vs[i].fields@.len() == 0 ==> holds(variants_text(vs, n), "."@ + decimal(i as nat) + " "@ + vs[i].name@),
        vs[i].fields@.len() > 0 ==> holds(
            variants_text(vs, n),
            "."@ + decimal(i as nat) + " "@ + vs[i].name@ + "("@ + joined(vs[i].fields@) + ")"@,
        ),
    decreases n,
{
    let part = if vs[i].fields@.len() == 0 {
        "."@ + decimal(i as nat) + " "@ + vs[i].name@
    } else {
        "."@ + decimal(i as nat) + " "@ + vs[i].name@ + "("@ + joined(vs[i].fields@) + ")"@
    };
    let before = variants_text(vs, (n - 1) as nat);
    if i == n - 1 {
        let gap = if i == 0 {
            " "@
        } else {
            ", "@
        };
        the_last(before + gap, part);
        assert(variants_text(vs, n) =~= (before + gap) + part);
    } else {
        each_constructor_is_behind_its_tag(vs, i, (n - 1) as nat);
        let more = variants_text(vs, n).skip(before.len() as int);
        let none = Seq::<char>::empty();
        more_round_it(before, part, none, more);
        assert(none + before + more =~= variants_text(vs, n));
    }
}

/// Names are joined by a comma and a space: of names in two parts, the first, a comma and the
/// second.
pub proof fn names_are_joined_in_order(a: Seq<String>, b: Seq<String>)
    requires
        a.len() > 0,
        b.len() > 0,
    ensures
        joined(a + b) == joined(a) + ", "@ + joined(b),
    decreases b.len(),
{
    assert((a + b).drop_last() =~= a + b.drop_last());
    assert((a + b).last() == b.last());
    if b.len() == 1 {
        assert(a + b.drop_last() =~= a);
        assert(b.last() == b[0]);
    } else {
        names_are_joined_in_order(a, b.drop_last());
        assert(joined(a + b) =~= joined(a) + ", "@ + (joined(b.drop_last()) + ", "@ + b.last()@));
    }
}

/// The summary counts every function of the module `main`, and no other.
pub proof fn own_functions_are_counted(fns: Seq<ProgramFn>, n: nat)
    requires
        n <= fns.len(),
    ensures
        own_fns(fns, n) == fns.take(n as int).filter(|f: ProgramFn| f.module@ == "main"@).len(),
    decreases n,
{
    reveal(Seq::filter);
    if n > 0 {
        own_functions_are_counted(fns, (n - 1) as nat);
        assert(fns.take(n as int).drop_last() =~= fns.take(n - 1));
        assert(fns.take(n as int).last() == fns[n - 1]);
    }
}

/// The summary says how many functions there are, how many of them are the file's own, and where
/// the program starts: at a function, by its number and its name, or else at its toplevel.
pub proof fn the_summary_says_where_it_starts(p: Program)
    ensures
        holds(summary_text(p), "; "@ + decimal(p.fns@.len()) + " functions, "@),
        holds(summary_text(p), decimal(own_fns(p.fns@, p.fns@.len())) + " from this file; "@),
        holds(summary_text(p), decimal(p.inits@.len()) + " module inits; "@ + decimal(p.globals as nat) + " globals; "@),
        p.main is Some ==> holds(
            summary_text(p),
            "starts at fn#"@ + decimal((p.main->0).0 as nat) + " ("@ + p.fns@[(p.main->0).0 as int].name@ + ")"@,
        ),
        p.main is None ==> holds(summary_text(p), "runs its toplevel"@),
{
    let none = Seq::<char>::empty();
    let a = "; "@ + decimal(p.fns@.len()) + " functions, "@;
    let b = decimal(own_fns(p.fns@, p.fns@.len())) + " from this file; "@;
    let c = decimal(p.inits@.len()) + " module inits; "@ + decimal(p.globals as nat) + " globals; "@;
    let d = if p.main is Some {
        "starts at fn#"@ + decimal((p.main->0).0 as nat) + " ("@ + p.fns@[(p.main->0).0 as int].name@ + ")"@
    } else {
        "runs its toplevel"@
    };
    let z = "\n"@;
    assert(summary_text(p) =~= none + a + (b + c + d + z));
    assert(summary_text(p) =~= a + b + (c + d + z));
    assert(summary_text(p) =~= (a + b) + c + (d + z));
    assert(summary_text(p) =~= (a + b + c) + d + z);
}

} // verus!

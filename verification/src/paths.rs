//! What holds of paths, versions and texts, whatever they are.
use vstd::prelude::*;

use crate::embed::{
    error_text, is_absolute, lexical, names_are_plain, normal, path_text, resolved, says_nothing, split, EmbedPathError, ReadError,
};
use crate::text::{decimal, has, has_at, is_space, number_in, trimmed, trimmed_end, trimmed_start, utf16_len};
use crate::version::{git_name, is_stamped, stamped, value_after};

verus! {

/// Parts with a slash between each two.
pub open spec fn with_slashes(parts: Seq<Seq<char>>) -> Seq<char>
    decreases parts.len(),
{
    if parts.len() == 0 {
        Seq::empty()
    } else if parts.len() == 1 {
        parts[0]
    } else {
        with_slashes(parts.drop_last()) + seq!['/'] + parts.last()
    }
}

/// A path is its parts with slashes between, and no part has one.
pub proof fn a_path_is_its_parts(s: Seq<char>)
    ensures
        with_slashes(split(s)) == s,
        split(s).len() >= 1,
        forall|i: int| 0 <= i < split(s).len() ==> !(#[trigger] split(s)[i]).contains('/'),
    decreases s.len(),
{
    if s.len() == 0 {
        assert(with_slashes(split(s)) =~= s);
    } else {
        let t = s.drop_last();
        let before = split(t);
        let all = split(s);
        a_path_is_its_parts(t);
        if s.last() == '/' {
            assert(all.drop_last() =~= before);
            assert(with_slashes(all) =~= s);
        } else {
            let last = before.last();
            assert(all.drop_last() =~= before.drop_last());
            assert(all.last() == last.push(s.last()));
            if before.len() == 1 {
                assert(before[0] == t);
                assert(all[0] == t.push(s.last()));
                assert(t.push(s.last()) =~= s);
            } else {
                let head = with_slashes(before.drop_last()) + seq!['/'];
                assert(with_slashes(before) == head + last);
                assert(with_slashes(all) == head + last.push(s.last()));
                assert(head + last.push(s.last()) =~= (head + last).push(s.last()));
                assert(t.push(s.last()) =~= s);
            }
            assert forall|i: int| 0 <= i < all.len() implies !(#[trigger] all[i]).contains('/') by {
                if i < all.len() - 1 {
                    assert(all[i] == before[i]);
                } else {
                    assert(!before[before.len() - 1].contains('/'));
                    if all[i].contains('/') {
                        let k = all[i].index_of('/');
                        if k < last.len() {
                            assert(last[k] == '/');
                        }
                    }
                }
            }
        }
    }
}

/// Two paths with a slash between have the parts of the one and then those of the other.
pub proof fn parts_of_two_paths(a: Seq<char>, b: Seq<char>)
    ensures
        split(a + seq!['/'] + b) == split(a) + split(b),
    decreases b.len(),
{
    let s = a + seq!['/'] + b;
    if b.len() == 0 {
        assert(s.drop_last() =~= a);
        assert(split(s) =~= split(a) + split(b));
    } else {
        let c = b.drop_last();
        parts_of_two_paths(a, c);
        a_path_is_its_parts(c);
        assert(s.drop_last() =~= a + seq!['/'] + c);
        assert(s.last() == b.last());
        let t = split(a) + split(c);
        assert(t.last() == split(c).last());
        assert(t.drop_last() =~= split(a) + split(c).drop_last());
        assert(split(s) =~= split(a) + split(b));
    }
}

/// Where a name leads does not depend on how the way to it is split: the parts of a second path lead
/// on from where those of the first led, which is as far as names go that are plain.
pub proof fn a_way_goes_on(a: Seq<Seq<char>>, b: Seq<Seq<char>>)
    ensures
        normal(a + b) == normal(normal(a) + b),
    decreases b.len(),
{
    if b.len() == 0 {
        assert(a + b =~= a);
        assert(normal(a) + b =~= normal(a));
        plain_names_stay(a);
    } else {
        let c = b.drop_last();
        a_way_goes_on(a, c);
        assert((a + b).drop_last() =~= a + c);
        assert((normal(a) + b).drop_last() =~= normal(a) + c);
        assert((a + b).last() == b.last() && (normal(a) + b).last() == b.last());
    }
}

proof fn plain_names_stay(a: Seq<Seq<char>>)
    ensures
        normal(normal(a)) == normal(a),
{
    let n = normal(a);
    assert forall|i: int| 0 <= i < n.len() implies !says_nothing(#[trigger] n[i]) && n[i] != ".."@ by {
        names_are_plain(a, i);
    }
    plain_is_normal(n);
}

proof fn plain_is_normal(n: Seq<Seq<char>>)
    requires
        forall|i: int| 0 <= i < n.len() ==> !says_nothing(#[trigger] n[i]) && n[i] != ".."@,
    ensures
        normal(n) == n,
    decreases n.len(),
{
    if n.len() > 0 {
        let t = n.drop_last();
        assert forall|i: int| 0 <= i < t.len() implies !says_nothing(#[trigger] t[i]) && t[i] != ".."@ by {
            assert(t[i] == n[i]);
        }
        plain_is_normal(t);
        assert(!says_nothing(n[n.len() - 1]));
        assert(normal(n) =~= n);
    } else {
        assert(normal(n) =~= n);
    }
}

/// Parts without a slash are the parts of the path that they make with slashes in front.
proof fn parts_of_a_text(names: Seq<Seq<char>>)
    requires
        forall|i: int| 0 <= i < names.len() ==> !(#[trigger] names[i]).contains('/'),
    ensures
        split(path_text(names)) == seq![Seq::<char>::empty()] + names,
    decreases names.len(),
{
    reveal_strlit("/");
    if names.len() == 0 {
        assert(split(path_text(names)) =~= seq![Seq::<char>::empty()] + names);
    } else {
        let t = names.drop_last();
        assert forall|i: int| 0 <= i < t.len() implies !(#[trigger] t[i]).contains('/') by {
            assert(t[i] == names[i]);
        }
        parts_of_a_text(t);
        let last = names[names.len() - 1];
        assert("/"@ =~= seq!['/']);
        parts_of_two_paths(path_text(t), last);
        one_part(last);
        assert(split(path_text(names)) =~= seq![Seq::<char>::empty()] + names);
    }
}

proof fn one_part(s: Seq<char>)
    requires
        !s.contains('/'),
    ensures
        split(s) == seq![s],
    decreases s.len(),
{
    if s.len() > 0 {
        let t = s.drop_last();
        assert(s[s.len() - 1] == s.last());
        if t.contains('/') {
            assert(s[t.index_of('/')] == '/');
        }
        one_part(t);
        assert(t.push(s.last()) =~= s);
        assert(split(s) =~= seq![s]);
    } else {
        assert(s =~= Seq::<char>::empty());
    }
}

proof fn names_have_no_slash(parts: Seq<Seq<char>>, i: int)
    requires
        forall|k: int| 0 <= k < parts.len() ==> !(#[trigger] parts[k]).contains('/'),
        0 <= i < normal(parts).len(),
    ensures
        !normal(parts)[i].contains('/'),
    decreases parts.len(),
{
    let t = parts.drop_last();
    assert forall|k: int| 0 <= k < t.len() implies !(#[trigger] t[k]).contains('/') by {
        assert(t[k] == parts[k]);
    }
    if i < normal(t).len() {
        names_have_no_slash(t, i);
    } else {
        assert(!parts[parts.len() - 1].contains('/'));
    }
}

/// A path in its shortest form starts at the root and is in its shortest form.
pub proof fn the_shortest_form_is_shortest(s: Seq<char>)
    ensures
        is_absolute(lexical(s)),
        lexical(lexical(s)) == lexical(s),
{
    reveal_strlit("/");
    reveal_strlit("");
    reveal_strlit(".");
    reveal_strlit("..");
    assert("/"@ =~= seq!['/']);
    let names = normal(split(s));
    a_path_is_its_parts(s);
    let none = Seq::<char>::empty();
    if names.len() == 0 {
        assert("/"@ =~= none + seq!['/'] + none);
        parts_of_two_paths(none, none);
        assert(split(none) =~= seq![none]);
        let two = seq![none, none];
        assert(split("/"@) =~= two);
        assert(none =~= ""@);
        assert(two.drop_last() =~= seq![none]);
        assert(seq![none].drop_last() =~= Seq::<Seq<char>>::empty());
        assert(normal(Seq::<Seq<char>>::empty()).len() == 0);
        assert(normal(seq![none]).len() == 0);
        assert(normal(two).len() == 0);
    } else {
        assert forall|i: int| 0 <= i < names.len() implies !(#[trigger] names[i]).contains('/') by {
            names_have_no_slash(split(s), i);
        }
        parts_of_a_text(names);
        let first = seq![none];
        assert(none =~= ""@);
        assert(first.drop_last() =~= Seq::<Seq<char>>::empty());
        assert(says_nothing(first.last()));
        assert(normal(Seq::<Seq<char>>::empty()) =~= Seq::<Seq<char>>::empty());
        assert(normal(first) == normal(first.drop_last()));
        a_way_goes_on(first, names);
        assert(normal(first) + names =~= names);
        plain_names_stay(split(s));
        starts_with_a_slash(names);
    }
}

proof fn starts_with_a_slash(names: Seq<Seq<char>>)
    requires
        names.len() > 0,
    ensures
        path_text(names).len() > 0,
        path_text(names)[0] == '/',
    decreases names.len(),
{
    reveal_strlit("/");
    if names.len() > 1 {
        starts_with_a_slash(names.drop_last());
    } else {
        assert(path_text(names.drop_last()) =~= Seq::<char>::empty());
    }
}

/// A written path is refused exactly where it is empty, where it is absolute, where there is no
/// directory to take it from, and where that directory cannot be told; else it is resolved.
pub proof fn when_a_path_is_refused(dir: Option<Seq<char>>, written: Seq<char>, here: Option<Seq<char>>)
    ensures
        ({
            let r = resolved(dir, written, here);
            &&& r == Err::<Seq<char>, EmbedPathError>(EmbedPathError::Empty) <==> written.len() == 0
            &&& r == Err::<Seq<char>, EmbedPathError>(EmbedPathError::Absolute) <==> written.len() > 0 && written[0] == '/'
            &&& r == Err::<Seq<char>, EmbedPathError>(EmbedPathError::NoDirectory) <==> written.len() > 0 && written[0] != '/'
                && dir is None
            &&& r == Err::<Seq<char>, EmbedPathError>(EmbedPathError::Unresolvable) <==> written.len() > 0 && written[0] != '/'
                && dir is Some && (dir->0.len() == 0 || dir->0[0] != '/') && here is None
        }),
{
}

/// A path is resolved from the directory on: where the directory is absolute, its names are those of
/// the directory led on by the parts that are written.
pub proof fn a_path_is_resolved_from_the_directory(dir: Seq<char>, written: Seq<char>, here: Option<Seq<char>>)
    requires
        is_absolute(dir),
        written.len() > 0,
        written[0] != '/',
    ensures
        ({
            let names = normal(normal(split(dir)) + split(written));
            resolved(Some(dir), written, here) == Ok::<Seq<char>, EmbedPathError>(
                if names.len() == 0 {
                    "/"@
                } else {
                    path_text(names)
                },
            )
        }),
{
    reveal_strlit("/");
    assert("/"@ =~= seq!['/']);
    parts_of_two_paths(dir, written);
    a_way_goes_on(split(dir), split(written));
}

/// Names are written from the root on, a slash in front of each.
pub proof fn names_are_written_in_order(a: Seq<Seq<char>>, b: Seq<Seq<char>>, name: Seq<char>)
    ensures
        path_text(a + b) == path_text(a) + path_text(b),
        path_text(seq![name]) == "/"@ + name,
    decreases b.len(),
{
    assert(seq![name].drop_last() =~= Seq::<Seq<char>>::empty());
    assert(path_text(Seq::<Seq<char>>::empty()) =~= Seq::<char>::empty());
    assert(path_text(seq![name]) =~= "/"@ + name);
    if b.len() == 0 {
        assert(a + b =~= a);
        assert(path_text(a) + path_text(b) =~= path_text(a));
    } else {
        names_are_written_in_order(a, b.drop_last(), name);
        assert((a + b).drop_last() =~= a + b.drop_last());
        assert((a + b).last() == b.last());
        assert(path_text(a + b) =~= path_text(a) + path_text(b));
    }
}

/// What is wrong with a file is told with its own numbers.
pub proof fn an_error_tells_its_numbers(why: String, len: u64, max: usize, offset: usize)
    ensures
        error_text(ReadError::Io(why)) == why@,
        error_text(ReadError::TooLarge { len, max }) == "it is "@ + decimal(len as nat)
            + " bytes, and one `String` or `Binary` holds at most "@ + decimal(max as nat),
        error_text(ReadError::NotUtf8 { offset }) == "it is not UTF-8 (the first invalid byte is at offset "@ + decimal(
            offset as nat,
        ) + "); embed it as a `Binary` instead"@,
{
}

/// A version is stamped where it has a hyphen or a plus in it, and one that is stays as it is; any
/// other gets the commit behind a plus, where that is known.
pub proof fn a_stamp_is_a_hyphen_or_a_plus(base: Seq<char>, git: Seq<char>)
    ensures
        is_stamped(base) <==> base.contains('-') || base.contains('+'),
        base.contains('-') || base.contains('+') ==> stamped(base, Some(git)) == base,
        !base.contains('-') && !base.contains('+') ==> stamped(base, Some(git)) == base + "+git."@ + git,
        stamped(base, None) == base,
        is_stamped(stamped(base, Some(git))),
{
    reveal_strlit("-");
    reveal_strlit("+");
    reveal_strlit("+git.");
    one_character(base, '-');
    one_character(base, '+');
    assert("-"@ =~= seq!['-']);
    assert("+"@ =~= seq!['+']);
    let out = base + "+git."@ + git;
    one_character(out, '+');
    assert(out[base.len() as int] == '+');
}

proof fn one_character(s: Seq<char>, c: char)
    ensures
        has(s, seq![c]) <==> s.contains(c),
{
    if s.contains(c) {
        let i = s.index_of(c);
        assert(s.subrange(i, i + 1) =~= seq![c]);
        assert(has_at(s, seq![c], i));
    }
    if has(s, seq![c]) {
        let i = choose|i: int| #[trigger] has_at(s, seq![c], i);
        assert(s.subrange(i, i + 1)[0] == s[i]);
    }
}

/// A commit is named by its hash, marked where there are changes on top of it; without a hash it has
/// no name.
pub proof fn changes_are_marked(sha: Seq<char>, status: Seq<char>)
    ensures
        git_name(None, Some(status)) is None,
        sha.len() == 0 ==> git_name(Some(sha), Some(status)) is None,
        sha.len() > 0 && status.len() == 0 ==> git_name(Some(sha), Some(status)) == Some(sha),
        sha.len() > 0 && status.len() > 0 ==> git_name(Some(sha), Some(status)) == Some(sha + ".dirty"@),
        sha.len() > 0 ==> git_name(Some(sha), None) == Some(sha),
{
}

/// A text is all white space.
pub open spec fn is_blank_text(s: Seq<char>) -> bool {
    forall|i: int| 0 <= i < s.len() ==> is_space(#[trigger] s[i])
}

/// White space round a text is taken off, and nothing else: what is left starts and ends with
/// something else, or is empty.
pub proof fn space_round_a_text_goes(a: Seq<char>, t: Seq<char>, b: Seq<char>)
    requires
        is_blank_text(a),
        is_blank_text(b),
        t.len() > 0 ==> !is_space(t[0]) && !is_space(t.last()),
    ensures
        t.len() > 0 ==> trimmed(a + t + b) == t,
        trimmed(a + b).len() == 0,
{
    if t.len() > 0 {
        space_in_front_goes(a, t + b);
        assert(a + t + b =~= a + (t + b));
        assert((t + b)[0] == t[0]);
        assert(trimmed_start(t + b) == t + b);
        space_behind_goes(t, b);
        assert(trimmed_end(t) == t);
    }
    let none = Seq::<char>::empty();
    let s = a + b;
    assert forall|i: int| 0 <= i < s.len() implies is_space(#[trigger] s[i]) by {
        if i < a.len() {
            assert(s[i] == a[i]);
        } else {
            assert(s[i] == b[i - a.len()]);
        }
    }
    space_in_front_goes(s, none);
    assert(s + none =~= s);
    assert(trimmed_start(none) == none);
}

proof fn space_in_front_goes(a: Seq<char>, t: Seq<char>)
    requires
        is_blank_text(a),
    ensures
        trimmed_start(a + t) == trimmed_start(t),
    decreases a.len(),
{
    if a.len() > 0 {
        assert((a + t)[0] == a[0]);
        assert((a + t).skip(1) =~= a.skip(1) + t);
        assert forall|i: int| 0 <= i < a.skip(1).len() implies is_space(#[trigger] a.skip(1)[i]) by {
            assert(a.skip(1)[i] == a[i + 1]);
        }
        space_in_front_goes(a.skip(1), t);
    } else {
        assert(a + t =~= t);
    }
}

proof fn space_behind_goes(t: Seq<char>, b: Seq<char>)
    requires
        is_blank_text(b),
    ensures
        trimmed_end(t + b) == trimmed_end(t),
    decreases b.len(),
{
    if b.len() > 0 {
        assert((t + b).last() == b[b.len() - 1]);
        assert((t + b).drop_last() =~= t + b.drop_last());
        assert forall|i: int| 0 <= i < b.drop_last().len() implies is_space(#[trigger] b.drop_last()[i]) by {
            assert(b.drop_last()[i] == b[i]);
        }
        space_behind_goes(t, b.drop_last());
    } else {
        assert(t + b =~= t);
    }
}

/// What follows a key is read without the white space round it, and a line without the key has
/// nothing that follows.
pub proof fn what_follows_a_key(key: Seq<char>, a: Seq<char>, value: Seq<char>, b: Seq<char>)
    requires
        is_blank_text(a),
        is_blank_text(b),
        value.len() > 0,
        !is_space(value[0]),
        !is_space(value.last()),
    ensures
        value_after(key + a + value + b, key) == Some(value),
        forall|line: Seq<char>| !has_at(line, key, 0) ==> #[trigger] value_after(line, key) is None,
{
    let line = key + a + value + b;
    assert(line.subrange(0, key.len() as int) =~= key);
    assert(line.skip(key.len() as int) =~= a + value + b);
    space_round_a_text_goes(a, value, b);
}

/// A digit is no white space, and neither is a letter; a space, a tab and the ends of lines are, and
/// of the characters past ASCII those that are white space in Unicode, by number.
pub proof fn what_is_space(c: char)
    ensures
        is_space(' ') && is_space('\t') && is_space('\n') && is_space('\r'),
        '!' <= c <= '~' ==> !is_space(c),
        c < ' ' ==> (is_space(c) <==> 9 <= c as u32 <= 13),
        c > '~' ==> (is_space(c) <==> {
            let n = c as u32;
            ||| n == 133
            ||| n == 160
            ||| n == 5760
            ||| 8192 <= n <= 8202
            ||| n == 8232
            ||| n == 8233
            ||| n == 8239
            ||| n == 8287
            ||| n == 12288
        }),
{
}

/// A number may have a plus in front, and no other sign or letter.
pub proof fn a_number_is_digits(s: Seq<char>)
    ensures
        s.len() == 0 ==> number_in(s) is None,
        s.len() > 0 && s[0] == '-' ==> number_in(s) is None,
        s.len() > 0 && !('0' <= s.last() <= '9') ==> number_in(s) is None,
{
    if s.len() > 0 {
        let d = crate::text::unsigned_part(s);
        if d.len() > 0 {
            assert(d.last() == s.last());
            assert(d[d.len() - 1] == s.last());
        }
    }
}

/// A text's units are those of its characters: two for a character past 65535, and one for another.
pub proof fn units_are_those_of_the_characters(c: char, s: Seq<char>)
    ensures
        utf16_len(Seq::<char>::empty()) == 0,
        utf16_len(seq![c] + s) == utf16_len(s) + (if c as u32 >= 65536 {
            2nat
        } else {
            1
        }),
{
    let t = seq![c] + s;
    assert(t.drop_first() =~= s);
}

/// A part of a path says nothing if it is empty or a single dot; what says nothing leads nowhere
/// else, wherever it stands at the end.
pub proof fn a_dot_leads_nowhere_else(parts: Seq<Seq<char>>, part: Seq<char>)
    ensures
        says_nothing(part) <==> part.len() == 0 || (part.len() == 1 && part[0] == '.'),
        part.len() == 0 || (part.len() == 1 && part[0] == '.') ==> normal(parts.push(part)) == normal(parts),
{
    reveal_strlit("");
    reveal_strlit(".");
    assert(part == ""@ <==> part.len() == 0) by {
        if part.len() == 0 {
            assert(part =~= ""@);
        }
    }
    assert(part == "."@ <==> part.len() == 1 && part[0] == '.') by {
        if part.len() == 1 && part[0] == '.' {
            assert(part =~= "."@);
        }
    }
    assert(parts.push(part).drop_last() =~= parts);
}

} // verus!

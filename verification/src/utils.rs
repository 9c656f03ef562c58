use vstd::prelude::*;

use crate::messages::joined;
use crate::models::strs;

verus! {

/// Name for what `char::is_uppercase` returns: whether the character has the
/// Unicode `Uppercase` property.
pub uninterp spec fn is_uppercase(c: char) -> bool;

/// Calls `char::is_uppercase`. Of its result the contract states the ASCII
/// part, which its documentation fixes (exactly `A` to `Z`); beyond ASCII it
/// only names it.
#[verifier::external_body]
fn char_is_uppercase(c: char) -> (r: bool)
    ensures
        r == is_uppercase(c),
        (c as u32) < 128 ==> (r <==> ('A' <= c && c <= 'Z')),
{
    c.is_uppercase()
}

/// Calls `String::push`; the contract claims what its documentation says:
/// the text afterwards is the text before with `c` appended.
#[verifier::external_body]
pub(crate) fn push_char(s: &mut String, c: char)
    ensures
        final(s)@ == old(s)@.push(c),
{
    s.push(c)
}

/// The ASCII lower-case form of `c`; other characters are unchanged.
pub open spec fn ascii_lower(c: char) -> char {
    if 'A' <= c && c <= 'Z' {
        ((c as u32) + 32) as char
    } else {
        c
    }
}

/// The ASCII lower-case form of `c`; other characters are unchanged.
pub fn to_ascii_lower(c: char) -> (r: char)
    ensures
        r == ascii_lower(c),
{
    if 'A' <= c && c <= 'Z' {
        let b: u8 = c as u8;
        assert(b == c as u32);
        ((b + 32) as char)
    } else {
        c
    }
}

/// Whether `c` is upper case: `A` to `Z` among ASCII characters, the Unicode
/// `Uppercase` property beyond.
pub open spec fn is_upper_char(c: char) -> bool {
    if (c as u32) < 128 {
        'A' <= c && c <= 'Z'
    } else {
        is_uppercase(c)
    }
}

/// Snake case: every upper-case character but the first is preceded by `_`,
/// and every character is lower-cased in ASCII.
pub open spec fn snake_case(s: Seq<char>) -> Seq<char>
    decreases s.len(),
{
    if s.len() == 0 {
        Seq::empty()
    } else {
        let r = snake_case(s.drop_last());
        let c = s.last();
        let r = if is_upper_char(c) && s.len() > 1 {
            r.push('_')
        } else {
            r
        };
        r.push(ascii_lower(c))
    }
}

/// Converts a type name to snake case: `UserService` becomes `user_service`.
pub fn to_snake_case(s: &str) -> (r: String)
    ensures
        r@ == snake_case(s@),
{
    let n = s.unicode_len();
    let mut r = String::new();
    let mut i: usize = 0;
    while i < n
        invariant
            n == s@.len(),
            i <= n,
            r@ == snake_case(s@.take(i as int)),
        decreases n - i,
    {
        proof {
            assert(s@.take(i + 1).drop_last() =~= s@.take(i as int));
        }
        let ch = s.get_char(i);
        if char_is_uppercase(ch) && i > 0 {
            push_char(&mut r, '_');
        }
        push_char(&mut r, to_ascii_lower(ch));
        i = i + 1;
    }
    assert(s@.take(n as int) =~= s@);
    r
}

/// Name for the texts of the components of a path: `Path::components`, each
/// component rendered by `to_string_lossy`.
pub uninterp spec fn path_components(p: Seq<char>) -> Seq<Seq<char>>;

/// Splits a path into the texts of its components (`Path::components`). The
/// contract only names the result: the splitting rules are not spelled out.
#[verifier::external_body]
fn components_of(p: &str) -> (r: Vec<String>)
    ensures
        strs(r@) == path_components(p@),
{
    std::path::Path::new(p).components().map(|c| c.as_os_str().to_string_lossy().into_owned()).collect()
}

/// A component that is an ordinary name (not the root, `.` or `..`).
pub open spec fn is_normal_component(c: Seq<char>) -> bool {
    c != "/"@ && c != "."@ && c != ".."@
}

/// The position of the last `.` in `name`, if any.
pub open spec fn last_dot(name: Seq<char>) -> Option<int>
    decreases name.len(),
{
    if name.len() == 0 {
        None
    } else if name.last() == '.' {
        Some(name.len() - 1)
    } else {
        last_dot(name.drop_last())
    }
}

proof fn lemma_last_dot(name: Seq<char>)
    ensures
        last_dot(name) matches Some(p) ==> 0 <= p < name.len() && name[p] == '.',
    decreases name.len(),
{
    if name.len() > 0 && name.last() != '.' {
        lemma_last_dot(name.drop_last());
    }
}

/// A file name without its extension (`Path::file_stem`): everything before
/// the last `.`, unless that dot is the first character.
pub open spec fn file_stem(name: Seq<char>) -> Seq<char> {
    match last_dot(name) {
        Some(p) => if p > 0 {
            name.take(p)
        } else {
            name
        },
        None => name,
    }
}

/// The components relative to `src` (all of `file` when `src` is not a prefix).
pub open spec fn relative_components(file: Seq<Seq<char>>, src: Seq<Seq<char>>) -> Seq<Seq<char>> {
    if src.len() <= file.len() && file.take(src.len() as int) == src {
        file.skip(src.len() as int)
    } else {
        file
    }
}

/// The components once the extension of the last one is removed
/// (`Path::with_extension("")`); a stem `.` is dropped, as `Path` does with a
/// trailing `.` component.
pub open spec fn without_extension(rel: Seq<Seq<char>>) -> Seq<Seq<char>> {
    if rel.len() > 0 && is_normal_component(rel.last()) {
        let stem = file_stem(rel.last());
        if stem == "."@ && rel.len() > 1 {
            rel.drop_last()
        } else {
            rel.update(rel.len() - 1, stem)
        }
    } else {
        rel
    }
}

/// The module a file's components name: a final `mod` (from `mod.rs`)
/// names its directory's module.
pub open spec fn without_mod(parts: Seq<Seq<char>>) -> Seq<Seq<char>> {
    if parts.len() > 1 && parts.last() == "mod"@ {
        parts.drop_last()
    } else {
        parts
    }
}

/// The module path of a source file given the components of its path and of
/// the source directory: `crate::` and the relative components without
/// extension (and without a final `mod`) joined by `::`, or nothing for
/// `main`.
pub open spec fn module_path_spec(file: Seq<Seq<char>>, src: Seq<Seq<char>>) -> Seq<char> {
    let parts = without_mod(without_extension(relative_components(file, src)));
    let j = joined(parts, "::"@);
    if j == "main"@ {
        Seq::empty()
    } else {
        "crate::"@ + j
    }
}

/// The position of the last `.` in `name`, if any.
fn find_last_dot(name: &str) -> (r: Option<usize>)
    ensures
        r matches Some(p) ==> last_dot(name@) == Some(p as int),
        r is None ==> last_dot(name@) is None,
{
    let n = name.unicode_len();
    let mut i: usize = n;
    assert(name@.take(n as int) =~= name@);
    while i > 0
        invariant
            n == name@.len(),
            i <= n,
            last_dot(name@) == last_dot(name@.take(i as int)),
        decreases i,
    {
        proof {
            assert(name@.take(i as int).drop_last() =~= name@.take(i - 1));
        }
        if name.get_char(i - 1) == '.' {
            return Some(i - 1);
        }
        i = i - 1;
    }
    assert(name@.take(0) =~= Seq::<char>::empty());
    None
}

/// Whether two texts are equal.
fn same_text(a: &String, b: &str) -> (r: bool)
    ensures
        r == (a@ == b@),
{
    let bs = String::from_str(b);
    *a == bs
}

/// The module path from the components of a file's path and of the source
/// directory (see `module_path_spec`).
pub fn module_path_from_components(file: &Vec<String>, src: &Vec<String>) -> (r: String)
    ensures
        r@ == module_path_spec(strs(file@), strs(src@)),
{
    let ghost fv = strs(file@);
    let ghost sv = strs(src@);
    let mut is_prefix = src.len() <= file.len();
    let mut i: usize = 0;
    while is_prefix && i < src.len()
        invariant
            fv == strs(file@),
            sv == strs(src@),
            i <= src@.len(),
            is_prefix ==> src@.len() <= file@.len(),
            is_prefix ==> forall|m: int| 0 <= m < i ==> fv[m] == sv[m],
            !is_prefix ==> !(sv.len() <= fv.len() && fv.take(sv.len() as int) == sv),
        decreases src@.len() - i,
    {
        if file[i] != src[i] {
            is_prefix = false;
            proof {
                if sv.len() <= fv.len() && fv.take(sv.len() as int) == sv {
                    assert(fv.take(sv.len() as int)[i as int] == fv[i as int]);
                }
            }
        }
        i = i + 1;
    }
    let start: usize = if is_prefix {
        src.len()
    } else {
        0
    };
    proof {
        if is_prefix {
            assert(fv.take(sv.len() as int) =~= sv);
        }
    }
    let mut rel: Vec<String> = Vec::new();
    let mut k: usize = start;
    while k < file.len()
        invariant
            fv == strs(file@),
            start <= k <= file@.len(),
            strs(rel@) == fv.subrange(start as int, k as int),
        decreases file@.len() - k,
    {
        let ghost r0 = strs(rel@);
        rel.push(file[k].clone());
        assert(strs(rel@) =~= r0.push(fv[k as int]));
        assert(strs(rel@) =~= fv.subrange(start as int, k + 1));
        k = k + 1;
    }
    let ghost relv = relative_components(fv, sv);
    assert(strs(rel@) =~= relv);
    let n = rel.len();
    if n > 0 {
        let last = &rel[n - 1];
        assert(last@ == relv.last());
        let normal = !same_text(last, "/") && !same_text(last, ".") && !same_text(last, "..");
        if normal {
            proof { lemma_last_dot(last@); }
            let stem: String = match find_last_dot(last.as_str()) {
                Some(p) => {
                    if p > 0 {
                        let s = last.as_str().substring_char(0, p);
                        assert(s@ =~= last@.take(p as int));
                        String::from_str(s)
                    } else {
                        last.clone()
                    }
                },
                None => last.clone(),
            };
            assert(stem@ == file_stem(relv.last()));
            if same_text(&stem, ".") && n > 1 {
                rel.pop();
                assert(strs(rel@) =~= relv.drop_last());
            } else {
                rel.set(n - 1, stem);
                assert(strs(rel@) =~= relv.update(relv.len() - 1, file_stem(relv.last())));
            }
        }
    }
    let ghost parts0 = without_extension(relv);
    assert(strs(rel@) == parts0);
    let m = rel.len();
    if m > 1 && same_text(&rel[m - 1], "mod") {
        rel.pop();
        assert(strs(rel@) =~= parts0.drop_last());
    }
    let ghost parts = without_mod(parts0);
    assert(strs(rel@) == parts);
    let j = crate::messages::join_names(&rel, "::");
    if same_text(&j, "main") {
        String::new()
    } else {
        let mut r = String::from_str("crate::");
        r.append(j.as_str());
        r
    }
}

/// The module path of the source file `file_path` inside `src_dir`:
/// `src/services.rs` gives `crate::services`, and `src/main.rs` gives nothing.
pub fn derive_module_path(file_path: &str, src_dir: &str) -> (r: String)
    ensures
        r@ == module_path_spec(path_components(file_path@), path_components(src_dir@)),
{
    let file = components_of(file_path);
    let src = components_of(src_dir);
    module_path_from_components(&file, &src)
}


/// Name for what `unicode_ident::is_xid_start` returns: whether the
/// character has the Unicode `XID_Start` property.
pub uninterp spec fn xid_start(c: char) -> bool;

/// Name for what `unicode_ident::is_xid_continue` returns: whether the
/// character has the Unicode `XID_Continue` property.
pub uninterp spec fn xid_continue(c: char) -> bool;

/// Calls `unicode_ident::is_xid_start`. The contract names its result and
/// states the ASCII part, which the crate's table fixes: exactly the letters.
#[verifier::external_body]
fn char_xid_start(c: char) -> (r: bool)
    ensures
        r == xid_start(c),
        (c as u32) < 128 ==> (r <==> (('a' <= c && c <= 'z') || ('A' <= c && c <= 'Z'))),
{
    unicode_ident::is_xid_start(c)
}

/// Calls `unicode_ident::is_xid_continue`. The contract names its result and
/// states the ASCII part, which the crate's table fixes: exactly the letters,
/// the digits and `_`.
#[verifier::external_body]
fn char_xid_continue(c: char) -> (r: bool)
    ensures
        r == xid_continue(c),
        (c as u32) < 128 ==> (r <==> (('a' <= c && c <= 'z') || ('A' <= c && c <= 'Z') || ('0' <= c && c <= '9')
            || c == '_')),
{
    unicode_ident::is_xid_continue(c)
}

/// A character that may continue an identifier: among ASCII characters a
/// letter, a digit or `_`, beyond ASCII one with the `XID_Continue` property.
pub open spec fn is_ident_char(c: char) -> bool {
    if (c as u32) < 128 {
        ('a' <= c && c <= 'z') || ('A' <= c && c <= 'Z') || ('0' <= c && c <= '9') || c == '_'
    } else {
        xid_continue(c)
    }
}

/// A character that may start an identifier: among ASCII characters a letter
/// or `_`, beyond ASCII one with the `XID_Start` property.
pub open spec fn is_ident_start(c: char) -> bool {
    if (c as u32) < 128 {
        ('a' <= c && c <= 'z') || ('A' <= c && c <= 'Z') || c == '_'
    } else {
        xid_start(c)
    }
}

/// How many identifier characters `s` starts with.
pub open spec fn ident_run(s: Seq<char>) -> nat
    decreases s.len(),
{
    if s.len() > 0 && is_ident_char(s[0]) {
        1 + ident_run(s.drop_first())
    } else {
        0
    }
}

/// A run of identifier characters that is an identifier: it starts with a
/// character that may start one and is not `_` alone.
pub open spec fn is_ident_run(seg: Seq<char>) -> bool {
    seg.len() > 0 && is_ident_start(seg[0]) && !(seg.len() == 1 && seg[0] == '_')
}

/// `t` is a sequence of segments `::name`, each name an identifier that runs
/// up to the next `::` or the end.
pub open spec fn is_segment_list(t: Seq<char>) -> bool
    decreases t.len(),
{
    if t.len() == 0 {
        true
    } else if t.len() >= 2 && t[0] == ':' && t[1] == ':' {
        let n = ident_run(t.subrange(2, t.len() as int)) as int;
        &&& 2 + n <= t.len()
        &&& is_ident_run(t.subrange(2, 2 + n))
        &&& is_segment_list(t.subrange(2 + n, t.len() as int))
    } else {
        false
    }
}

/// A module path that generated code can call through: `crate` followed by
/// `::`-separated identifiers, Unicode ones included (keywords are not told
/// apart from names).
pub open spec fn is_module_path(s: Seq<char>) -> bool {
    &&& s.len() >= 5
    &&& s[0] == 'c' && s[1] == 'r' && s[2] == 'a' && s[3] == 't' && s[4] == 'e'
    &&& is_segment_list(s.subrange(5, s.len() as int))
}

/// Whether `c` may continue an identifier.
fn ident_char(c: char) -> (r: bool)
    ensures
        r == is_ident_char(c),
{
    char_xid_continue(c)
}

/// Whether `c` may start an identifier.
fn ident_start(c: char) -> (r: bool)
    ensures
        r == is_ident_start(c),
{
    c == '_' || char_xid_start(c)
}

/// One step of `ident_run` along a text, from position `q`.
proof fn lemma_ident_run_step(s: Seq<char>, q: int)
    requires
        0 <= q < s.len(),
    ensures
        ident_run(s.subrange(q, s.len() as int)) == if is_ident_char(s[q]) {
            1 + ident_run(s.subrange(q + 1, s.len() as int))
        } else {
            0
        },
{
    assert(s.subrange(q, s.len() as int).drop_first() =~= s.subrange(q + 1, s.len() as int));
}

/// Whether `s` is a module path that generated code can call through.
pub fn valid_module_path(s: &str) -> (r: bool)
    ensures
        r == is_module_path(s@),
{
    let n = s.unicode_len();
    if n < 5 {
        return false;
    }
    if !(s.get_char(0) == 'c' && s.get_char(1) == 'r' && s.get_char(2) == 'a' && s.get_char(3) == 't'
        && s.get_char(4) == 'e') {
        return false;
    }
    let ghost sv = s@;
    let mut pos: usize = 5;
    while pos < n
        invariant
            n == sv.len(),
            sv == s@,
            5 <= pos <= n,
            is_module_path(sv) == is_segment_list(sv.subrange(pos as int, n as int)),
        decreases n - pos,
    {
        let ghost t = sv.subrange(pos as int, n as int);
        if n - pos < 2 || s.get_char(pos) != ':' || s.get_char(pos + 1) != ':' {
            return false;
        }
        let start = pos + 2;
        assert(t.subrange(2, t.len() as int) =~= sv.subrange(start as int, n as int));
        let mut q: usize = start;
        let mut more = true;
        while more && q < n
            invariant
                n == sv.len(),
                sv == s@,
                start <= q <= n,
                ident_run(sv.subrange(start as int, n as int)) == (q - start) + ident_run(
                    sv.subrange(q as int, n as int),
                ),
                !more ==> ident_run(sv.subrange(q as int, n as int)) == 0,
                forall|k: int| start <= k < q ==> is_ident_char(#[trigger] sv[k]),
            decreases (n - q) as int + if more { 1int } else { 0int },
        {
            proof {
                lemma_ident_run_step(sv, q as int);
            }
            if ident_char(s.get_char(q)) {
                q = q + 1;
            } else {
                more = false;
            }
        }
        assert(ident_run(sv.subrange(q as int, n as int)) == 0) by {
            if q == n {
                assert(sv.subrange(q as int, n as int).len() == 0);
            }
        }
        let ghost k = (q - start) as int;
        assert(t.subrange(2, 2 + k) =~= sv.subrange(start as int, q as int));
        assert(t.subrange(2 + k, t.len() as int) =~= sv.subrange(q as int, n as int));
        if q == start {
            return false;
        }
        let c0 = s.get_char(start);
        if !ident_start(c0) {
            return false;
        }
        if q == start + 1 && c0 == '_' {
            return false;
        }
        pos = q;
    }
    assert(sv.subrange(n as int, n as int).len() == 0);
    true
}


/// No character of `t` is an ASCII upper-case letter, and all are ASCII.
pub open spec fn ascii_without_upper(t: Seq<char>) -> bool {
    forall|i: int| 0 <= i < t.len() ==> (t[i] as u32) < 128 && !('A' <= #[trigger] t[i] && t[i] <= 'Z')
}

/// Snake case of an ASCII text is ASCII and has no upper-case letter.
pub proof fn law_snake_case_lower(s: Seq<char>)
    requires
        forall|i: int| 0 <= i < s.len() ==> (#[trigger] s[i] as u32) < 128,
    ensures
        ascii_without_upper(snake_case(s)),
    decreases s.len(),
{
    if s.len() > 0 {
        let p = s.drop_last();
        assert forall|i: int| 0 <= i < p.len() implies (#[trigger] p[i] as u32) < 128 by {
            assert(p[i] == s[i]);
        }
        law_snake_case_lower(p);
        let c = s.last();
        assert((s[s.len() - 1] as u32) < 128);
        let r0 = snake_case(p);
        let r1 = if is_upper_char(c) && s.len() > 1 { r0.push('_') } else { r0 };
        assert(ascii_without_upper(r1)) by {
            assert forall|i: int| 0 <= i < r1.len() implies (r1[i] as u32) < 128 && !('A' <= #[trigger] r1[i] && r1[i] <= 'Z') by {
                if i < r0.len() {
                    assert(r1[i] == r0[i]);
                }
            }
        }
        let l = ascii_lower(c);
        assert((l as u32) < 128 && !('A' <= l && l <= 'Z'));
        assert(snake_case(s) == r1.push(l));
        assert forall|i: int| 0 <= i < r1.push(l).len() implies (r1.push(l)[i] as u32) < 128 && !('A' <= #[trigger] r1.push(l)[i] && r1.push(l)[i] <= 'Z') by {
            if i < r1.len() {
                assert(r1.push(l)[i] == r1[i]);
            }
        }
    }
}

/// Snake case leaves a text of ASCII characters without upper-case letters
/// unchanged.
proof fn lemma_snake_case_fixed(t: Seq<char>)
    requires
        ascii_without_upper(t),
    ensures
        snake_case(t) == t,
    decreases t.len(),
{
    if t.len() > 0 {
        let p = t.drop_last();
        assert(ascii_without_upper(p)) by {
            assert forall|i: int| 0 <= i < p.len() implies (p[i] as u32) < 128 && !('A' <= #[trigger] p[i] && p[i] <= 'Z') by {
                assert(p[i] == t[i]);
            }
        }
        lemma_snake_case_fixed(p);
        let c = t.last();
        assert(t[t.len() - 1] == c);
        assert(!is_upper_char(c));
        assert(ascii_lower(c) == c);
        assert(p.push(c) =~= t);
    }
}

/// Snake case is idempotent on ASCII texts: converting a converted name
/// again changes nothing.
pub proof fn law_snake_case_idempotent(s: Seq<char>)
    requires
        forall|i: int| 0 <= i < s.len() ==> (#[trigger] s[i] as u32) < 128,
    ensures
        snake_case(snake_case(s)) == snake_case(s),
{
    law_snake_case_lower(s);
    lemma_snake_case_fixed(snake_case(s));
}


/// Law: the module path of a file inside a source directory depends only on
/// the components that follow the whole directory: it is the module path of
/// those components alone, however many components the directory has.
pub proof fn law_module_path_strips_source_dir(src: Seq<Seq<char>>, rest: Seq<Seq<char>>)
    ensures
        module_path_spec(src + rest, src) == module_path_spec(rest, Seq::empty()),
        relative_components(src + rest, src) == rest,
{
    assert((src + rest).take(src.len() as int) =~= src);
    assert((src + rest).skip(src.len() as int) =~= rest);
    assert(rest.take(0) =~= Seq::<Seq<char>>::empty());
    assert(rest.skip(0) =~= rest);
}

} // verus!

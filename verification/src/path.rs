//! Paths as text: components separated by `/`, an optional leading `/`. On a system with other
//! separators the program rewrites paths to this form before it hands them over.
//!
//! Two paths are the same path when their components are: repeated and trailing
//! separators and inner `.` components do not count.
use vstd::prelude::*;
use crate::text;

verus! {

/// Add the finished piece `piece` to the components `names`; empty pieces and `.` are not
/// components.
pub open spec fn close_piece(names: Seq<Seq<char>>, piece: Seq<char>) -> Seq<Seq<char>> {
    if piece.len() == 0 || piece == seq!['.'] {
        names
    } else {
        names.push(piece)
    }
}

/// The components finished after reading `s`, and the piece that is still open.
pub open spec fn walk(s: Seq<char>) -> (Seq<Seq<char>>, Seq<char>)
    decreases s.len(),
{
    if s.len() == 0 {
        (Seq::empty(), Seq::empty())
    } else {
        let (names, piece) = walk(s.drop_last());
        if s.last() == '/' {
            (close_piece(names, piece), Seq::empty())
        } else {
            (names, piece.push(s.last()))
        }
    }
}

/// The path starts at the root.
pub open spec fn is_absolute(s: Seq<char>) -> bool {
    s.len() > 0 && s[0] == '/'
}

/// The path starts with a `.` component.
pub open spec fn starts_here(s: Seq<char>) -> bool {
    s.len() > 0 && s[0] == '.' && (s.len() == 1 || s[1] == '/')
}

/// The components of a path, a leading `.` included.
pub open spec fn components(s: Seq<char>) -> Seq<Seq<char>> {
    let (names, piece) = walk(s);
    let all = close_piece(names, piece);
    if starts_here(s) {
        seq![seq!['.']] + all
    } else {
        all
    }
}

/// Two path texts name the same path.
pub open spec fn same_path(a: Seq<char>, b: Seq<char>) -> bool {
    is_absolute(a) == is_absolute(b) && components(a) == components(b)
}

/// The last component, unless it is `.` or `..` or there is none.
pub open spec fn name_of(s: Seq<char>) -> Option<Seq<char>> {
    let all = components(s);
    if all.len() == 0 || all.last() == seq!['.'] || all.last() == seq!['.', '.'] {
        None
    } else {
        Some(all.last())
    }
}

/// The position of the last dot in `s`, or `-1`.
pub open spec fn last_dot(s: Seq<char>) -> int
    decreases s.len(),
{
    if s.len() == 0 {
        -1
    } else if s.last() == '.' {
        s.len() - 1
    } else {
        last_dot(s.drop_last())
    }
}

/// The name without its extension.
pub open spec fn stem_of(s: Seq<char>) -> Option<Seq<char>> {
    match name_of(s) {
        None => None,
        Some(name) => if last_dot(name) <= 0 {
            Some(name)
        } else {
            Some(name.take(last_dot(name)))
        },
    }
}

/// What follows the last dot of the name, unless the name starts with it.
pub open spec fn extension_of(s: Seq<char>) -> Option<Seq<char>> {
    match name_of(s) {
        None => None,
        Some(name) => if last_dot(name) <= 0 {
            None
        } else {
            Some(name.skip(last_dot(name) + 1))
        },
    }
}

/// `name` seen from the directory `dir`; an absolute `name` stands for itself.
pub open spec fn joined_path(dir: Seq<char>, name: Seq<char>) -> Seq<char> {
    if is_absolute(name) || dir.len() == 0 {
        name
    } else if dir.last() == '/' {
        dir + name
    } else {
        dir + seq!['/'] + name
    }
}

/// The view of an optional string.
pub open spec fn opt_view(o: Option<String>) -> Option<Seq<char>> {
    match o {
        None => None,
        Some(s) => Some(s@),
    }
}

proof fn lemma_dot()
    ensures
        "."@ == seq!['.'],
        ".."@ == seq!['.', '.'],
        "/"@ == seq!['/'],
{
    reveal_strlit(".");
    reveal_strlit("..");
    reveal_strlit("/");
    assert("."@ =~= seq!['.']);
    assert(".."@ =~= seq!['.', '.']);
    assert("/"@ =~= seq!['/']);
}

fn close(names: &mut Vec<String>, piece: String)
    ensures
        text::views(final(names)@) == close_piece(text::views(old(names)@), piece@),
{
    proof {
        lemma_dot();
    }
    if piece.as_str().unicode_len() == 0 || text::same_text(piece.as_str(), ".") {
        return;
    }
    names.push(piece);
    assert(text::views(names@) =~= text::views(old(names)@).push(piece@));
}

fn absolute(s: &str) -> (r: bool)
    ensures
        r == is_absolute(s@),
{
    s.unicode_len() > 0 && s.get_char(0) == '/'
}

/// The components of a path.
fn component_names(s: &str) -> (r: Vec<String>)
    ensures
        text::views(r@) == components(s@),
{
    let n = s.unicode_len();
    let mut names: Vec<String> = Vec::new();
    let mut piece = String::new();
    let mut i: usize = 0;
    assert(s@.take(0) =~= Seq::<char>::empty());
    assert(text::views(names@) =~= Seq::<Seq<char>>::empty());
    assert(piece@ =~= Seq::<char>::empty());
    while i < n
        invariant
            n == s@.len(),
            i <= n,
            walk(s@.take(i as int)) == (text::views(names@), piece@),
        decreases n - i,
    {
        let c = s.get_char(i);
        assert(s@.take(i + 1).drop_last() =~= s@.take(i as int));
        if c == '/' {
            close(&mut names, piece);
            piece = String::new();
            assert(piece@ =~= Seq::<char>::empty());
        } else {
            let ghost before = piece@;
            piece.append(s.substring_char(i, i + 1));
            assert(piece@ =~= before.push(c));
        }
        i = i + 1;
    }
    assert(s@.take(n as int) =~= s@);
    close(&mut names, piece);
    if n > 0 && s.get_char(0) == '.' && (n == 1 || s.get_char(1) == '/') {
        let mut all: Vec<String> = Vec::new();
        all.push(String::from_str("."));
        let ghost tail = names@;
        all.append(&mut names);
        proof {
            lemma_dot();
            assert(text::views(all@) =~= seq![seq!['.']] + text::views(tail));
        }
        all
    } else {
        names
    }
}

/// Whether two path texts name the same path.
pub fn same(a: &str, b: &str) -> (r: bool)
    ensures
        r == same_path(a@, b@),
{
    if absolute(a) != absolute(b) {
        return false;
    }
    let x = component_names(a);
    let y = component_names(b);
    if x.len() != y.len() {
        assert(text::views(x@).len() != text::views(y@).len());
        return false;
    }
    let mut i: usize = 0;
    while i < x.len()
        invariant
            i <= x@.len() == y@.len(),
            text::views(x@) == components(a@),
            text::views(y@) == components(b@),
            forall|j: int| 0 <= j < i ==> x@[j]@ == y@[j]@,
        decreases x.len() - i,
    {
        if !text::same_text(x[i].as_str(), y[i].as_str()) {
            assert(text::views(x@)[i as int] != text::views(y@)[i as int]);
            return false;
        }
        i = i + 1;
    }
    assert(text::views(x@) =~= text::views(y@));
    true
}

/// The last component of a path.
pub fn file_name(s: &str) -> (r: Option<String>)
    ensures
        opt_view(r) == name_of(s@),
{
    let mut all = component_names(s);
    proof {
        lemma_dot();
    }
    match all.pop() {
        None => None,
        Some(last) => {
            assert(last@ == components(s@).last());
            if text::same_text(last.as_str(), ".") || text::same_text(last.as_str(), "..") {
                None
            } else {
                Some(last)
            }
        },
    }
}

/// The position of the last dot, if there is one.
fn dot_position(s: &str) -> (r: Option<usize>)
    ensures
        match r {
            None => last_dot(s@) == -1,
            Some(i) => last_dot(s@) == i && i < s@.len(),
        },
{
    let n = s.unicode_len();
    let mut i: usize = n;
    assert(s@.take(n as int) =~= s@);
    while i > 0
        invariant
            i <= n == s@.len(),
            last_dot(s@) == last_dot(s@.take(i as int)),
        decreases i,
    {
        assert(s@.take(i as int).drop_last() =~= s@.take(i - 1));
        if s.get_char(i - 1) == '.' {
            return Some(i - 1);
        }
        i = i - 1;
    }
    None
}

/// The name of a path without its extension.
pub fn file_stem(s: &str) -> (r: Option<String>)
    ensures
        opt_view(r) == stem_of(s@),
{
    match file_name(s) {
        None => None,
        Some(name) => match dot_position(name.as_str()) {
            None => Some(name),
            Some(i) => if i == 0 {
                Some(name)
            } else {
                assert(name@.subrange(0, i as int) =~= name@.take(i as int));
                Some(String::from_str(name.as_str().substring_char(0, i)))
            },
        },
    }
}

/// The extension of a path.
pub fn extension(s: &str) -> (r: Option<String>)
    ensures
        opt_view(r) == extension_of(s@),
{
    match file_name(s) {
        None => None,
        Some(name) => match dot_position(name.as_str()) {
            None => None,
            Some(i) => if i == 0 {
                None
            } else {
                let n = name.as_str().unicode_len();
                assert(name@.subrange(i + 1, n as int) =~= name@.skip(i + 1));
                Some(String::from_str(name.as_str().substring_char(i + 1, n)))
            },
        },
    }
}

/// `name` seen from the directory `dir`.
pub fn join(dir: &str, name: &str) -> (r: String)
    ensures
        r@ == joined_path(dir@, name@),
{
    let n = dir.unicode_len();
    if absolute(name) || n == 0 {
        return String::from_str(name);
    }
    let mut r = String::from_str(dir);
    if dir.get_char(n - 1) != '/' {
        proof {
            lemma_dot();
        }
        r.append("/");
    }
    r.append(name);
    r
}

/// Sameness of paths is an equivalence: reflexive, symmetric and transitive.
pub proof fn law_same_path_is_an_equivalence(a: Seq<char>, b: Seq<char>, c: Seq<char>)
    ensures
        same_path(a, a),
        same_path(a, b) == same_path(b, a),
        same_path(a, b) && same_path(b, c) ==> same_path(a, c),
{
}

/// A plain name: not empty, without separators, and neither `.` nor `..`.
pub open spec fn is_plain(name: Seq<char>) -> bool {
    &&& name.len() > 0
    &&& text::free_of(name, '/')
    &&& name != seq!['.']
    &&& name != seq!['.', '.']
}

/// A plain name behind a separator is one more component.
pub proof fn law_name_is_the_last_component(dir: Seq<char>, name: Seq<char>)
    requires
        is_plain(name),
        dir.len() > 0,
    ensures
        components(dir + seq!['/'] + name) == components(dir + seq!['/']).push(name),
        is_absolute(dir + seq!['/'] + name) == is_absolute(dir),
        name_of(dir + seq!['/'] + name) == Some(name),
{
    let base = dir + seq!['/'];
    lemma_walk_plain(base, name);
    let all = base + name;
    assert(base.drop_last() =~= dir);
    assert(base.last() == '/');
    assert(walk(base).1 =~= Seq::<char>::empty());
    assert(all[0] == base[0]);
    assert(starts_here(all) == starts_here(base)) by {
        assert(base.len() >= 2);
        assert(all[1] == base[1]);
    }
    assert(Seq::<char>::empty() + name =~= name);
    let names = walk(base).0;
    assert(close_piece(names, Seq::<char>::empty()) == names);
    assert(seq![seq!['.']] + names.push(name) =~= (seq![seq!['.']] + names).push(name));
}

/// Reading text without separators only lengthens the open piece.
proof fn lemma_walk_plain(base: Seq<char>, name: Seq<char>)
    requires
        text::free_of(name, '/'),
    ensures
        walk(base + name) == (walk(base).0, walk(base).1 + name),
    decreases name.len(),
{
    if name.len() == 0 {
        assert(base + name =~= base);
        assert(walk(base).1 + name =~= walk(base).1);
    } else {
        let short = name.drop_last();
        assert forall|i: int| 0 <= i < short.len() implies #[trigger] short[i] != '/' by {
            assert(short[i] == name[i]);
        }
        lemma_walk_plain(base, short);
        let all = base + name;
        assert(all.drop_last() =~= base + short);
        assert(all.last() == name.last());
        assert(name[name.len() - 1] != '/');
        assert((walk(base).1 + short).push(name.last()) =~= walk(base).1 + name);
    }
}

/// Files of different names in one directory are different files.
pub proof fn law_names_tell_files_apart(dir: Seq<char>, one: Seq<char>, other: Seq<char>)
    requires
        dir.len() > 0,
        is_plain(one),
        is_plain(other),
    ensures
        same_path(dir + seq!['/'] + one, dir + seq!['/'] + other) <==> one == other,
{
    law_name_is_the_last_component(dir, one);
    law_name_is_the_last_component(dir, other);
    let base = components(dir + seq!['/']);
    if base.push(one) == base.push(other) {
        assert(base.push(one).last() == base.push(other).last());
    }
}

/// Repeated and trailing separators do not count.
pub proof fn law_extra_separators_do_not_count(s: Seq<char>)
    requires
        s.len() > 0,
    ensures
        same_path(s + seq!['/'], s),
{
    let t = s + seq!['/'];
    assert(t.drop_last() =~= s);
    assert(t.last() == '/');
    assert(t[0] == s[0]);
    if s.len() == 1 {
        assert(t[1] == '/');
    } else {
        assert(t[1] == s[1]);
    }
}

/// A name with an extension is its stem, a dot and its extension.
pub proof fn law_stem_and_extension(dir: Seq<char>, stem: Seq<char>, ext: Seq<char>)
    requires
        dir.len() > 0,
        stem.len() > 0,
        text::free_of(stem, '/'),
        text::free_of(ext, '/'),
        text::free_of(ext, '.'),
        stem + seq!['.'] + ext != seq!['.', '.'],
    ensures
        stem_of(dir + seq!['/'] + (stem + seq!['.'] + ext)) == Some(stem),
        extension_of(dir + seq!['/'] + (stem + seq!['.'] + ext)) == Some(ext),
{
    let name = stem + seq!['.'] + ext;
    assert forall|i: int| 0 <= i < name.len() implies #[trigger] name[i] != '/' by {
        if i < stem.len() {
            assert(name[i] == stem[i]);
        } else if i > stem.len() {
            assert(name[i] == ext[i - stem.len() - 1]);
        }
    }
    assert(name.len() >= 2);
    assert(name != seq!['.']);
    law_name_is_the_last_component(dir, name);
    lemma_last_dot(stem, ext);
    assert(name.take(stem.len() as int) =~= stem);
    assert(name.skip((stem.len() + 1) as int) =~= ext);
}

/// A name without a dot is its own stem and has no extension.
pub proof fn law_stem_without_a_dot(dir: Seq<char>, name: Seq<char>)
    requires
        dir.len() > 0,
        is_plain(name),
        text::free_of(name, '.'),
    ensures
        stem_of(dir + seq!['/'] + name) == Some(name),
        extension_of(dir + seq!['/'] + name) is None,
{
    law_name_is_the_last_component(dir, name);
    lemma_no_dot(name);
}

proof fn lemma_no_dot(s: Seq<char>)
    requires
        text::free_of(s, '.'),
    ensures
        last_dot(s) == -1,
    decreases s.len(),
{
    if s.len() > 0 {
        let short = s.drop_last();
        assert forall|i: int| 0 <= i < short.len() implies #[trigger] short[i] != '.' by {
            assert(short[i] == s[i]);
        }
        lemma_no_dot(short);
        assert(s[s.len() - 1] != '.');
    }
}

proof fn lemma_last_dot(stem: Seq<char>, ext: Seq<char>)
    requires
        text::free_of(ext, '.'),
    ensures
        last_dot(stem + seq!['.'] + ext) == stem.len(),
    decreases ext.len(),
{
    let name = stem + seq!['.'] + ext;
    if ext.len() == 0 {
        assert(name.last() == '.');
    } else {
        let short = ext.drop_last();
        assert forall|i: int| 0 <= i < short.len() implies #[trigger] short[i] != '.' by {
            assert(short[i] == ext[i]);
        }
        lemma_last_dot(stem, short);
        assert(name.drop_last() =~= stem + seq!['.'] + short);
        assert(name.last() == ext[ext.len() - 1]);
    }
}

/// Joining puts a relative name below the directory, with one separator between them; an
/// absolute name stays as it is.
pub proof fn law_joining(dir: Seq<char>, name: Seq<char>)
    ensures
        name.len() > 0 && name[0] == '/' ==> joined_path(dir, name) == name,
        dir.len() == 0 ==> joined_path(dir, name) == name,
        dir.len() > 0 && (name.len() == 0 || name[0] != '/') ==> {
            let bare = if dir.last() == '/' {
                dir.drop_last()
            } else {
                dir
            };
            joined_path(dir, name) == bare + seq!['/'] + name
        },
{
    if dir.len() > 0 && dir.last() == '/' {
        assert(dir =~= dir.drop_last() + seq!['/']);
    }
}

/// A dot in front hides a file and starts no extension: the name is its own stem.
pub proof fn law_hidden_files_have_no_extension(dir: Seq<char>, rest: Seq<char>)
    requires
        dir.len() > 0,
        rest.len() > 0,
        text::free_of(rest, '/'),
        text::free_of(rest, '.'),
    ensures
        stem_of(dir + seq!['/'] + (seq!['.'] + rest)) == Some(seq!['.'] + rest),
        extension_of(dir + seq!['/'] + (seq!['.'] + rest)) is None,
{
    let name = seq!['.'] + rest;
    assert(name[1] == rest[0] && rest[0] != '.');
    assert forall|i: int| 0 <= i < name.len() implies #[trigger] name[i] != '/' by {
        if i > 0 {
            assert(name[i] == rest[i - 1]);
        }
    }
    assert(name.len() >= 2 && name[1] != '.');
    assert(name != seq!['.', '.']);
    law_name_is_the_last_component(dir, name);
    lemma_last_dot(Seq::<char>::empty(), rest);
    assert(Seq::<char>::empty() + seq!['.'] + rest =~= name);
}

/// A plain name by itself is one component, and a dot in front of a separator counts as one of
/// its own at the start of a path.
pub proof fn law_names_by_themselves(name: Seq<char>)
    requires
        is_plain(name),
    ensures
        components(name) == seq![name],
        components(seq!['.', '/'] + name) == seq![seq!['.'], name],
{
    let none = Seq::<char>::empty();
    lemma_walk_plain(none, name);
    assert(none + name =~= name);
    let dot = seq!['.', '/'];
    lemma_walk_plain(dot, name);
    let first = seq!['.'];
    assert(dot.drop_last() =~= first);
    assert(first.drop_last() =~= none);
    if starts_here(name) {
        assert(name[0] == '.');
        if name.len() == 1 {
            assert(name =~= first);
        } else {
            assert(name[1] == '/');
        }
    }
    let whole = dot + name;
    assert(whole[0] == '.' && whole[1] == '/');
    assert(starts_here(whole));
    reveal_with_fuel(walk, 3);
    assert(components(name) =~= seq![name]);
    assert(components(whole) =~= seq![seq!['.'], name]);
}

} // verus!

//! Which files of a source tree hold entities.

use vstd::prelude::*;

use crate::text::{
    ascii_lower, ascii_lowered, chars_of, has_string, holds, law_ascii_lowered, string_of,
    to_ascii_lowercase, views,
};
use crate::types::opt_view;

verus! {

/// Whether every system splits `path` into the same components. A backslash, a
/// colon behind the first character and two leading slashes mean different
/// things on different systems.
pub open spec fn is_portable(path: Seq<char>) -> bool {
    &&& !path.contains('\\')
    &&& !(path.len() >= 2 && path[1] == ':')
    &&& !(path.len() >= 2 && path[0] == '/' && path[1] == '/')
}

/// Where the last component of `path` starts: behind its last slash.
pub open spec fn last_start(path: Seq<char>) -> int
    decreases path.len(),
{
    if path.len() == 0 || path.last() == '/' {
        path.len() as int
    } else {
        last_start(path.drop_last())
    }
}

/// The file name that `path` ends in. Slashes at the end and components `.`
/// there do not count; a path that ends in `..`, or has no component left, has
/// no file name.
pub open spec fn name_of(path: Seq<char>) -> Option<Seq<char>>
    decreases path.len(),
{
    if path.len() == 0 {
        None
    } else if path.last() == '/' {
        name_of(path.drop_last())
    } else {
        let start = last_start(path);
        let last = path.skip(start);
        if last == seq!['.'] && 0 <= start < path.len() {
            name_of(path.take(start))
        } else if last == seq!['.', '.'] {
            None
        } else {
            Some(last)
        }
    }
}

/// `Path::file_name` of std on a string: the last component of a path. What it
/// says of a path that is not portable depends on the system; the name is a part
/// of the path everywhere.
#[verifier::external_body]
fn file_name(path: &str) -> (r: Option<String>)
    ensures
        is_portable(path@) ==> opt_view(r) == name_of(path@),
        r matches Some(name) ==> holds(path@, name@),
{
    std::path::Path::new(path).file_name().and_then(|n| n.to_str()).map(|n| n.to_string())
}

/// Whether a parser of the default registry of `sem_core` claims the extension
/// `ext`, which starts with a dot.
pub uninterp spec fn is_registered(ext: Seq<char>) -> bool;

/// `ParserRegistry::registered_extensions` of `sem_core`, on the default
/// registry: the extensions that some parser claims, in any order.
#[verifier::external_body]
fn registered_extensions() -> (r: Vec<String>)
    ensures
        forall|ext: Seq<char>| #[trigger] views(r@).contains(ext) <==> is_registered(ext),
{
    let registry = sem_core::parser::plugins::create_default_registry();
    registry.registered_extensions().into_iter().map(|ext| ext.to_string()).collect()
}

/// Whether `ext` is a registered extension in lower case.
pub open spec fn is_source_extension(ext: Seq<char>) -> bool {
    exists|known: Seq<char>| #[trigger] is_registered(known) && ascii_lowered(known) == ext
}

/// Whether a suffix of `name` that starts with a dot is, in lower case, one of
/// `extensions`.
pub open spec fn ends_in(name: Seq<char>, extensions: Seq<Seq<char>>) -> bool {
    exists|i: int|
        0 <= i < name.len() && #[trigger] name[i] == '.' && extensions.contains(
            ascii_lowered(name.skip(i)),
        )
}

/// Whether a file with the name `name` holds entities: a suffix of it that
/// starts with a dot is a source extension, whatever its case.
pub open spec fn is_source_name(name: Seq<char>) -> bool {
    exists|i: int|
        0 <= i < name.len() && #[trigger] name[i] == '.' && is_source_extension(
            ascii_lowered(name.skip(i)),
        )
}

/// Whether the file at a portable path holds entities.
pub open spec fn is_source_path(path: Seq<char>) -> bool {
    match name_of(path) {
        Some(name) => is_source_name(name),
        None => false,
    }
}

/// Every extension that some parser claims, in lower case and once.
pub fn source_extensions() -> (r: Vec<String>)
    ensures
        views(r@).no_duplicates(),
        forall|ext: Seq<char>| #[trigger] views(r@).contains(ext) <==> is_source_extension(ext),
{
    let known = registered_extensions();
    let n: usize = known.len();
    let mut r: Vec<String> = Vec::new();
    let mut i: usize = 0;
    while i < n
        invariant
            i <= n == known@.len(),
            forall|ext: Seq<char>| #[trigger]
                views(known@).contains(ext) <==> is_registered(ext),
            views(r@).no_duplicates(),
            forall|j: int| 0 <= j < i ==> views(r@).contains(ascii_lowered(#[trigger] known@[j]@)),
            forall|ext: Seq<char>| #[trigger]
                views(r@).contains(ext) ==> is_source_extension(ext),
        decreases n - i,
    {
        let ext = to_ascii_lowercase(known[i].as_str());
        let ghost before = views(r@);
        proof {
            assert(views(known@)[i as int] == known@[i as int]@);
            assert(views(known@).contains(known@[i as int]@));
            assert(is_registered(known@[i as int]@));
        }
        if !has_string(&r, &ext) {
            r.push(ext);
            proof {
                let lowered = ascii_lowered(known@[i as int]@);
                assert(is_source_extension(lowered));
                assert(views(r@) =~= before.push(lowered));
                assert(views(r@)[before.len() as int] == lowered);
                assert forall|e: Seq<char>| #[trigger] views(r@).contains(e) implies
                    is_source_extension(e) by {
                    let k = choose|k: int| 0 <= k < views(r@).len() && views(r@)[k] == e;
                    if k < before.len() {
                        assert(before[k] == e);
                        assert(before.contains(e));
                    }
                }
                assert forall|e: Seq<char>| before.contains(e) implies views(r@).contains(e) by {
                    let k = choose|k: int| 0 <= k < before.len() && before[k] == e;
                    assert(views(r@)[k] == e);
                }
            }
        }
        i += 1;
    }
    assert forall|ext: Seq<char>| is_source_extension(ext) implies views(r@).contains(ext) by {
        let e = choose|e: Seq<char>| #[trigger] is_registered(e) && ascii_lowered(e) == ext;
        assert(views(known@).contains(e));
        let j = choose|j: int| 0 <= j < views(known@).len() && views(known@)[j] == e;
        assert(known@[j]@ == e);
    }
    r
}

proof fn lemma_lower_dot(c: char)
    ensures
        ascii_lower(c) == '.' <==> c == '.',
        ascii_lower(c) == '/' <==> c == '/',
        ascii_lower(c) == '\\' <==> c == '\\',
        ascii_lower(c) == ':' <==> c == ':',
{
    if 'A' <= c <= 'Z' {
        let b = c as u8;
        assert(65 <= b <= 90);
        let d = (b + 32) as u8;
        assert(97 <= d <= 122);
        assert(d as char != '.' && d as char != '/' && d as char != '\\' && d as char != ':');
    }
}

/// Whether a file with the name `name` has one of the lower-case `extensions`.
pub fn has_extension(name: &str, extensions: &Vec<String>) -> (r: bool)
    ensures
        r == ends_in(name@, views(extensions@)),
{
    let lower = to_ascii_lowercase(name);
    let chars = chars_of(lower.as_str());
    let n: usize = chars.len();
    let mut i: usize = 0;
    while i < n
        invariant
            i <= n == chars@.len() == name@.len(),
            chars@ == ascii_lowered(name@),
            forall|j: int|
                0 <= j < i && #[trigger] name@[j] == '.' ==> !views(extensions@).contains(
                    ascii_lowered(name@.skip(j)),
                ),
        decreases n - i,
    {
        proof {
            lemma_lower_dot(name@[i as int]);
        }
        if chars[i] == '.' {
            let suffix = string_of(&chars, i, n);
            assert(suffix@ =~= ascii_lowered(name@.skip(i as int)));
            if has_string(extensions, &suffix) {
                assert(name@[i as int] == '.');
                return true;
            }
        }
        i += 1;
    }
    false
}

/// Whether `name` is what the system takes for the file name of `path`.
pub closed spec fn named(path: Seq<char>, name: Option<String>) -> bool {
    exists|p: &str| p@ == path && #[trigger] call_ensures(file_name, (p,), name)
}

/// Whether `r` is a right answer to whether the file at `path` holds entities:
/// the answer for the file name of the path. Which name that is depends on the
/// system where the path is not portable; it is a part of the path everywhere.
pub open spec fn answers_source(path: Seq<char>, r: bool) -> bool {
    &&& exists|name: Option<String>| #[trigger]
        named(path, name) && r == (match name {
            Some(name) => is_source_name(name@),
            None => false,
        })
    &&& is_portable(path) ==> r == is_source_path(path)
    &&& r ==> exists|name: Seq<char>| #[trigger] holds(path, name) && is_source_name(name)
}

/// Tells the files that hold entities from the others.
pub struct SourceFilter {
    extensions: Vec<String>,
}

impl SourceFilter {
    #[verifier::type_invariant]
    spec fn well_formed(self) -> bool {
        forall|ext: Seq<char>| #[trigger]
            views(self.extensions@).contains(ext) <==> is_source_extension(ext)
    }

    /// Whether the filter accepts names with the extension `ext`.
    pub closed spec fn claims(self, ext: Seq<char>) -> bool {
        views(self.extensions@).contains(ext)
    }

    /// A filter for the extensions that some parser claims.
    pub fn new() -> (r: Self)
        ensures
            forall|ext: Seq<char>| #[trigger] r.claims(ext) <==> is_source_extension(ext),
    {
        SourceFilter { extensions: source_extensions() }
    }

    /// Whether the file at `path` holds entities.
    pub fn accepts(&self, path: &str) -> (r: bool)
        ensures
            answers_source(path@, r),
    {
        proof {
            use_type_invariant(self);
        }
        let name = file_name(path);
        assert(named(path@, name));
        match name {
            Some(name) => {
                proof {
                    lemma_same_suffixes(name@, views(self.extensions@));
                }
                has_extension(name.as_str(), &self.extensions)
            },
            None => false,
        }
    }
}

/// Whether the file at `path` holds entities.
pub fn is_source_file(path: &str) -> (r: bool)
    ensures
        answers_source(path@, r),
{
    SourceFilter::new().accepts(path)
}

proof fn lemma_same_suffixes(name: Seq<char>, extensions: Seq<Seq<char>>)
    requires
        forall|ext: Seq<char>| #[trigger]
            extensions.contains(ext) <==> is_source_extension(ext),
    ensures
        ends_in(name, extensions) == is_source_name(name),
{
    if ends_in(name, extensions) {
        let i = choose|i: int|
            0 <= i < name.len() && #[trigger] name[i] == '.' && extensions.contains(
                ascii_lowered(name.skip(i)),
            );
        assert(is_source_extension(ascii_lowered(name.skip(i))));
    }
    if is_source_name(name) {
        let i = choose|i: int|
            0 <= i < name.len() && #[trigger] name[i] == '.' && is_source_extension(
                ascii_lowered(name.skip(i)),
            );
        assert(extensions.contains(ascii_lowered(name.skip(i))));
    }
}

proof fn lemma_last_start(path: Seq<char>)
    ensures
        0 <= last_start(path) <= path.len(),
        last_start(path) > 0 ==> path[last_start(path) - 1] == '/',
        forall|i: int| last_start(path) <= i < path.len() ==> path[i] != '/',
    decreases path.len(),
{
    if path.len() > 0 && path.last() != '/' {
        lemma_last_start(path.drop_last());
        assert forall|i: int| last_start(path) <= i < path.len() implies path[i] != '/' by {
            if i < path.len() - 1 {
                assert(path.drop_last()[i] == path[i]);
            }
        }
    }
}

proof fn lemma_last_start_lowered(path: Seq<char>)
    ensures
        last_start(ascii_lowered(path)) == last_start(path),
    decreases path.len(),
{
    if path.len() > 0 {
        lemma_lower_dot(path.last());
        assert(ascii_lowered(path).drop_last() =~= ascii_lowered(path.drop_last()));
        lemma_last_start_lowered(path.drop_last());
    }
}

proof fn lemma_name_lowered(path: Seq<char>)
    ensures
        name_of(ascii_lowered(path)) == (match name_of(path) {
            Some(name) => Some(ascii_lowered(name)),
            None => None,
        }),
    decreases path.len(),
{
    let lower = ascii_lowered(path);
    if path.len() > 0 {
        lemma_lower_dot(path.last());
        assert(lower.drop_last() =~= ascii_lowered(path.drop_last()));
        if path.last() == '/' {
            lemma_name_lowered(path.drop_last());
        } else {
            lemma_last_start_lowered(path);
            lemma_last_start(path);
            let start = last_start(path);
            let last = path.skip(start);
            assert(lower.skip(start) =~= ascii_lowered(last));
            assert(start < path.len()) by {
                lemma_last_start(path.drop_last());
            }
            lemma_lower_dot(last[0]);
            if last.len() > 1 {
                lemma_lower_dot(last[1]);
            }
            assert(ascii_lowered(last) == seq!['.'] <==> last == seq!['.']) by {
                if last.len() == 1 {
                    assert(ascii_lowered(last)[0] == ascii_lower(last[0]));
                    assert(last[0] == '.' ==> last =~= seq!['.']);
                    assert(last[0] == '.' ==> ascii_lowered(last) =~= seq!['.']);
                }
            }
            assert(ascii_lowered(last) == seq!['.', '.'] <==> last == seq!['.', '.']) by {
                if last.len() == 2 {
                    assert(ascii_lowered(last)[0] == ascii_lower(last[0]));
                    assert(ascii_lowered(last)[1] == ascii_lower(last[1]));
                    assert(last[0] == '.' && last[1] == '.' ==> last =~= seq!['.', '.']);
                    assert(last[0] == '.' && last[1] == '.' ==> ascii_lowered(last) =~= seq![
                        '.',
                        '.',
                    ]);
                }
            }
            if last == seq!['.'] {
                assert(lower.take(start) =~= ascii_lowered(path.take(start)));
                lemma_name_lowered(path.take(start));
            }
        }
    }
}

proof fn lemma_lower_twice(s: Seq<char>)
    ensures
        ascii_lowered(ascii_lowered(s)) == ascii_lowered(s),
{
    assert forall|i: int| 0 <= i < s.len() implies ascii_lower(ascii_lower(#[trigger] s[i]))
        == ascii_lower(s[i]) by {
        let c = s[i];
        if 'A' <= c <= 'Z' {
            let b = c as u8;
            assert(97 <= (b + 32) as u8 <= 122);
            assert((b + 32) as u8 as char > 'Z');
        }
    }
    assert(ascii_lowered(ascii_lowered(s)) =~= ascii_lowered(s));
}

proof fn lemma_source_name_lowered(name: Seq<char>)
    ensures
        is_source_name(ascii_lowered(name)) == is_source_name(name),
{
    let lower = ascii_lowered(name);
    assert forall|i: int| 0 <= i < name.len() implies {
        &&& #[trigger] name[i] == '.' <==> lower[i] == '.'
        &&& ascii_lowered(lower.skip(i)) == ascii_lowered(name.skip(i))
    } by {
        lemma_lower_dot(name[i]);
        assert(lower.skip(i) =~= ascii_lowered(name.skip(i)));
        lemma_lower_twice(name.skip(i));
    }
    if is_source_name(name) {
        let i = choose|i: int|
            0 <= i < name.len() && #[trigger] name[i] == '.' && is_source_extension(
                ascii_lowered(name.skip(i)),
            );
        assert(lower[i] == '.');
    }
    if is_source_name(lower) {
        let i = choose|i: int|
            0 <= i < lower.len() && #[trigger] lower[i] == '.' && is_source_extension(
                ascii_lowered(lower.skip(i)),
            );
        assert(name[i] == '.');
    }
}

/// The case of ASCII letters in a path decides nothing: two paths that differ in
/// it alone are both source files or neither is.
pub proof fn law_case_insensitive(a: Seq<char>, b: Seq<char>)
    requires
        ascii_lowered(a) == ascii_lowered(b),
    ensures
        is_portable(a) == is_portable(b),
        is_source_path(a) == is_source_path(b),
{
    lemma_name_lowered(a);
    lemma_name_lowered(b);
    if let Some(name) = name_of(a) {
        lemma_source_name_lowered(name);
    }
    if let Some(name) = name_of(b) {
        lemma_source_name_lowered(name);
    }
    lemma_portable_lowered(a);
    lemma_portable_lowered(b);
}

proof fn lemma_portable_lowered(path: Seq<char>)
    ensures
        is_portable(ascii_lowered(path)) == is_portable(path),
{
    let lower = ascii_lowered(path);
    assert forall|i: int| 0 <= i < path.len() implies {
        &&& #[trigger] path[i] == '\\' <==> lower[i] == '\\'
        &&& path[i] == ':' <==> lower[i] == ':'
        &&& path[i] == '/' <==> lower[i] == '/'
    } by {
        lemma_lower_dot(path[i]);
    }
    assert(lower.contains('\\') == path.contains('\\')) by {
        if lower.contains('\\') {
            let i = choose|i: int| 0 <= i < lower.len() && lower[i] == '\\';
            assert(path[i] == '\\');
        }
        if path.contains('\\') {
            let i = choose|i: int| 0 <= i < path.len() && path[i] == '\\';
            assert(lower[i] == '\\');
        }
    }
}

/// The directory of a file decides nothing: only its name does.
pub proof fn law_directory_is_irrelevant(dir: Seq<char>, name: Seq<char>)
    requires
        name.len() > 0,
        !name.contains('/'),
        name != seq!['.'],
        name != seq!['.', '.'],
    ensures
        is_source_path(dir + seq!['/'] + name) == is_source_name(name),
        is_source_path(name) == is_source_name(name),
{
    let path = dir + seq!['/'] + name;
    lemma_last_start(path);
    assert(path[dir.len() as int] == '/');
    let start = last_start(path);
    if start > dir.len() + 1 {
        assert(path[start - 1] == name[start - 1 - dir.len() - 1]);
        assert(name.contains('/'));
    }
    assert(start == dir.len() + 1);
    assert(path.skip(start) =~= name);
    assert(path.last() == name.last());
    assert(name.last() != '/') by {
        if name.last() == '/' {
            assert(name.contains('/'));
        }
    }
    lemma_last_start(name);
    if last_start(name) > 0 {
        assert(name.contains('/'));
    }
    assert(name.skip(0) =~= name);
}

/// A path without a dot is no source file.
pub proof fn law_no_dot_no_source(path: Seq<char>)
    requires
        !path.contains('.'),
    ensures
        !is_source_path(path),
        forall|name: Seq<char>| #[trigger] holds(path, name) ==> !is_source_name(name),
{
    assert forall|name: Seq<char>| #[trigger] holds(path, name) implies !is_source_name(name) by {
        let at = choose|at: int|
            0 <= at <= path.len() - name.len() && #[trigger] path.subrange(at, at + name.len())
                == name;
        if is_source_name(name) {
            let i = choose|i: int|
                0 <= i < name.len() && #[trigger] name[i] == '.' && is_source_extension(
                    ascii_lowered(name.skip(i)),
                );
            assert(path.subrange(at, at + name.len())[i] == path[at + i]);
            assert(path.contains('.'));
        }
    }
    lemma_name_is_part(path);
}

proof fn lemma_name_is_part(path: Seq<char>)
    ensures
        name_of(path) matches Some(name) ==> holds(path, name),
    decreases path.len(),
{
    if path.len() > 0 {
        if path.last() == '/' {
            lemma_name_is_part(path.drop_last());
            if let Some(name) = name_of(path.drop_last()) {
                lemma_prefix_holds(path, path.len() - 1, name);
            }
        } else {
            lemma_last_start(path);
            let start = last_start(path);
            let last = path.skip(start);
            if last == seq!['.'] && start < path.len() {
                lemma_name_is_part(path.take(start));
                if let Some(name) = name_of(path.take(start)) {
                    lemma_prefix_holds(path, start, name);
                }
            } else {
                assert(path.subrange(start, start + last.len()) =~= last);
            }
        }
    }
}

proof fn lemma_prefix_holds(s: Seq<char>, n: int, needle: Seq<char>)
    requires
        0 <= n <= s.len(),
        holds(s.take(n), needle),
    ensures
        holds(s, needle),
{
    let i = choose|i: int|
        0 <= i <= n - needle.len() && #[trigger] s.take(n).subrange(i, i + needle.len()) == needle;
    assert(s.subrange(i, i + needle.len()) =~= s.take(n).subrange(i, i + needle.len()));
}

/// Whether two texts are equal but for the case of ASCII letters.
pub open spec fn same_but_case(a: Seq<char>, b: Seq<char>) -> bool {
    &&& a.len() == b.len()
    &&& forall|i: int|
        0 <= i < a.len() ==> {
            let x = #[trigger] a[i] as u32;
            let y = b[i] as u32;
            x == y || (65 <= x <= 90 && y == x + 32) || (65 <= y <= 90 && x == y + 32)
        }
}

proof fn lemma_same_but_case(a: Seq<char>, b: Seq<char>)
    ensures
        ascii_lowered(a) == ascii_lowered(b) <==> same_but_case(a, b),
{
    let x = ascii_lowered(a);
    let y = ascii_lowered(b);
    law_ascii_lowered(a);
    law_ascii_lowered(b);
    if x == y {
        assert forall|i: int| 0 <= i < a.len() implies {
            let p = #[trigger] a[i] as u32;
            let q = b[i] as u32;
            p == q || (65 <= p <= 90 && q == p + 32) || (65 <= q <= 90 && p == q + 32)
        } by {
            assert(x[i] == y[i]);
            let d = b[i];
        }
    }
    if same_but_case(a, b) {
        assert forall|i: int| 0 <= i < x.len() implies x[i] == y[i] by {
            let p = a[i];
            let q = b[i];
            assert((x[i] as u32) == (y[i] as u32));
        }
        assert(x =~= y);
    }
}

/// A file name is that of a source file exactly where it ends, behind any stem,
/// in an extension that a parser claims, whatever the case of its letters.
pub proof fn law_source_name(name: Seq<char>)
    ensures
        is_source_name(name) <==> exists|stem: Seq<char>, ext: Seq<char>, known: Seq<char>|
            ends_with_registered(name, stem, ext, known),
{
    if is_source_name(name) {
        let i = choose|i: int|
            0 <= i < name.len() && #[trigger] name[i] == '.' && is_source_extension(
                ascii_lowered(name.skip(i)),
            );
        let ext = name.skip(i);
        let known = choose|known: Seq<char>| #[trigger]
            is_registered(known) && ascii_lowered(known) == ascii_lowered(ext);
        lemma_same_but_case(ext, known);
        assert(name =~= name.take(i) + ext);
        assert(ends_with_registered(name, name.take(i), ext, known));
    }
    if exists|stem: Seq<char>, ext: Seq<char>, known: Seq<char>|
        ends_with_registered(name, stem, ext, known) {
        let (stem, ext, known) = choose|stem: Seq<char>, ext: Seq<char>, known: Seq<char>|
            ends_with_registered(name, stem, ext, known);
        lemma_same_but_case(ext, known);
        let i = stem.len() as int;
        assert(name.skip(i) =~= ext);
        assert(name[i] == '.');
        assert(is_source_extension(ascii_lowered(ext)));
    }
}

/// Whether `name` is `stem` with the extension `ext`, which starts with a dot
/// and is, but for case, the registered extension `known`.
pub open spec fn ends_with_registered(
    name: Seq<char>,
    stem: Seq<char>,
    ext: Seq<char>,
    known: Seq<char>,
) -> bool {
    &&& name == stem + ext
    &&& ext.len() > 0
    &&& ext[0] == '.'
    &&& is_registered(known)
    &&& same_but_case(ext, known)
}

/// Whether `ext` is a registered extension but for case.
pub open spec fn is_registered_but_case(ext: Seq<char>) -> bool {
    exists|known: Seq<char>| #[trigger] is_registered(known) && same_but_case(ext, known)
}

/// The source extensions are the registered ones in lower case, each once.
pub proof fn law_source_extensions(r: Vec<String>)
    requires
        call_ensures(source_extensions, (), r),
    ensures
        forall|a: int, b: int|
            0 <= a < b < r@.len() ==> (#[trigger] r@[a])@ != (#[trigger] r@[b])@,
        forall|known: Seq<char>| #[trigger]
            is_registered(known) ==> exists|k: int|
                0 <= k < r@.len() && same_but_case((#[trigger] r@[k])@, known),
        forall|k: int| 0 <= k < r@.len() ==> is_registered_but_case((#[trigger] r@[k])@),
        forall|k: int, i: int|
            0 <= k < r@.len() && 0 <= i < r@[k]@.len() ==> !('A' <= #[trigger] r@[k]@[i] <= 'Z'),
{
    let all = views(r@);
    assert forall|a: int, b: int| 0 <= a < b < r@.len() implies (#[trigger] r@[a])@ != (
    #[trigger] r@[b])@ by {
        assert(all[a] != all[b]);
    }
    assert forall|known: Seq<char>| #[trigger] is_registered(known) implies exists|k: int|
        0 <= k < r@.len() && same_but_case((#[trigger] r@[k])@, known) by {
        let ext = ascii_lowered(known);
        assert(is_source_extension(ext));
        assert(all.contains(ext));
        let k = choose|k: int| 0 <= k < all.len() && all[k] == ext;
        lemma_lower_twice(known);
        lemma_same_but_case(r@[k]@, known);
        assert(same_but_case(r@[k]@, known));
    }
    assert forall|k: int| 0 <= k < r@.len() implies is_registered_but_case((#[trigger] r@[k])@) by {
        assert(all[k] == r@[k]@);
        assert(all.contains(all[k]));
        let known = choose|known: Seq<char>| #[trigger]
            is_registered(known) && ascii_lowered(known) == r@[k]@;
        lemma_lower_twice(known);
        lemma_same_but_case(r@[k]@, known);
    }
    assert forall|k: int, i: int| 0 <= k < r@.len() && 0 <= i < r@[k]@.len() implies !('A'
        <= #[trigger] r@[k]@[i] <= 'Z') by {
        assert(all[k] == r@[k]@);
        assert(all.contains(all[k]));
        let known = choose|known: Seq<char>| #[trigger]
            is_registered(known) && ascii_lowered(known) == r@[k]@;
        law_ascii_lowered(known);
        let c = known[i];
        let d = r@[k]@[i];
        assert((d as u32) == if 65 <= c as u32 <= 90 {
            c as u32 + 32
        } else {
            c as u32 as int
        });
    }
}

/// A name has one of the extensions exactly where it ends, behind any stem, in
/// one of them, the case of the name aside.
pub proof fn law_has_extension(name: &str, extensions: Vec<String>, r: bool)
    requires
        call_ensures(has_extension, (name, &extensions), r),
    ensures
        r <==> exists|stem: Seq<char>, ext: Seq<char>, k: int|
            {
                &&& name@ == #[trigger] (stem + ext)
                &&& ext.len() > 0 && ext[0] == '.'
                &&& 0 <= k < extensions@.len()
                &&& ascii_lowered(ext) == (#[trigger] extensions@[k])@
            },
{
    let all = views(extensions@);
    if r {
        let i = choose|i: int|
            0 <= i < name@.len() && #[trigger] name@[i] == '.' && all.contains(
                ascii_lowered(name@.skip(i)),
            );
        let ext = name@.skip(i);
        let k = choose|k: int| 0 <= k < all.len() && all[k] == ascii_lowered(ext);
        assert(name@ =~= name@.take(i) + ext);
        assert(extensions@[k]@ == ascii_lowered(ext));
    }
    if exists|stem: Seq<char>, ext: Seq<char>, k: int|
        {
            &&& name@ == #[trigger] (stem + ext)
            &&& ext.len() > 0 && ext[0] == '.'
            &&& 0 <= k < extensions@.len()
            &&& ascii_lowered(ext) == (#[trigger] extensions@[k])@
        } {
        let (stem, ext, k) = choose|stem: Seq<char>, ext: Seq<char>, k: int|
            {
                &&& name@ == #[trigger] (stem + ext)
                &&& ext.len() > 0 && ext[0] == '.'
                &&& 0 <= k < extensions@.len()
                &&& ascii_lowered(ext) == (#[trigger] extensions@[k])@
            };
        let i = stem.len() as int;
        assert(name@.skip(i) =~= ext);
        assert(name@[i] == '.');
        assert(all[k] == ascii_lowered(ext));
        assert(all.contains(ascii_lowered(ext)));
    }
}

/// A file in any directory is a source file exactly where its name says so.
pub proof fn law_source_file(path: &str, dir: Seq<char>, name: Seq<char>, r: bool)
    requires
        call_ensures(is_source_file, (path,), r),
        path@ == name || path@ == dir + seq!['/'] + name,
        !path@.contains('\\'),
        !(path@.len() >= 2 && path@[1] == ':'),
        !(path@.len() >= 2 && path@[0] == '/' && path@[1] == '/'),
        name.len() > 0,
        !name.contains('/'),
        name != seq!['.'],
        name != seq!['.', '.'],
    ensures
        r <==> exists|stem: Seq<char>, ext: Seq<char>, known: Seq<char>|
            ends_with_registered(name, stem, ext, known),
{
    law_directory_is_irrelevant(dir, name);
    law_source_name(name);
}

/// Slashes and components `.` at the end of a path leave its file name as it is;
/// a component `..` there takes it away, and an empty path has none.
pub proof fn law_path_ends(path: Seq<char>)
    ensures
        name_of(path + seq!['/']) == name_of(path),
        name_of(path + seq!['/', '.']) == name_of(path),
        name_of(path + seq!['/', '.', '.']) is None,
        name_of(Seq::empty()) is None,
        name_of(seq!['.']) is None,
        name_of(seq!['.', '.']) is None,
{
    assert((path + seq!['/']).drop_last() =~= path);
    let dot = path + seq!['/', '.'];
    lemma_start_behind(path, seq!['.']);
    assert(dot =~= path + seq!['/'] + seq!['.']);
    assert(dot.skip(path.len() as int + 1) =~= seq!['.']);
    assert(dot.take(path.len() as int + 1) =~= path + seq!['/']);
    let dots = path + seq!['/', '.', '.'];
    lemma_start_behind(path, seq!['.', '.']);
    assert(dots =~= path + seq!['/'] + seq!['.', '.']);
    assert(dots.skip(path.len() as int + 1) =~= seq!['.', '.']);
    lemma_start_alone(seq!['.']);
    assert(seq!['.'].skip(0) =~= seq!['.']);
    assert(seq!['.'].take(0) =~= Seq::empty());
    lemma_start_alone(seq!['.', '.']);
    assert(seq!['.', '.'].skip(0) =~= seq!['.', '.']);
}

proof fn lemma_start_behind(path: Seq<char>, last: Seq<char>)
    requires
        forall|i: int| 0 <= i < last.len() ==> #[trigger] last[i] != '/',
    ensures
        last_start(path + seq!['/'] + last) == path.len() + 1,
{
    let all = path + seq!['/'] + last;
    lemma_last_start(all);
    let start = last_start(all);
    assert(all[path.len() as int] == '/');
    if start > path.len() + 1 {
        assert(all[start - 1] == last[start - 1 - path.len() - 1]);
    }
}

proof fn lemma_start_alone(last: Seq<char>)
    requires
        forall|i: int| 0 <= i < last.len() ==> #[trigger] last[i] != '/',
    ensures
        last_start(last) == 0,
{
    lemma_last_start(last);
    if last_start(last) > 0 {
        assert(last[last_start(last) - 1] != '/');
    }
}

/// Whatever the path, the answer is that for the name which the system gives the
/// path: where it gives none it is no source file.
pub proof fn law_answer_is_that_of_the_name(path: &str, r: bool)
    requires
        call_ensures(is_source_file, (path,), r),
    ensures
        exists|name: Option<String>|
            {
                &&& #[trigger] named(path@, name)
                &&& name is None ==> !r
                &&& name is Some ==> (r <==> exists|
                    stem: Seq<char>,
                    ext: Seq<char>,
                    known: Seq<char>,
                | ends_with_registered(name->0@, stem, ext, known))
            },
{
    let name = choose|name: Option<String>| #[trigger]
        named(path@, name) && r == (match name {
            Some(name) => is_source_name(name@),
            None => false,
        });
    if name is Some {
        law_source_name(name->0@);
    }
    assert(named(path@, name));
}

} // verus!

//! Text operations on strings as sequences of characters.

use vstd::hash_set::StringHashSet;
use vstd::prelude::*;

verus! {

/// `String::push` of std: appends one character.
pub assume_specification[ String::push ](s: &mut String, c: char)
    ensures
        final(s)@ == old(s)@.push(c),
;

/// The characters with the Unicode property `White_Space`.
pub open spec fn is_space(c: char) -> bool {
    ||| '\u{9}' <= c <= '\u{d}'
    ||| c == '\u{20}'
    ||| c == '\u{85}'
    ||| c == '\u{a0}'
    ||| c == '\u{1680}'
    ||| '\u{2000}' <= c <= '\u{200a}'
    ||| c == '\u{2028}'
    ||| c == '\u{2029}'
    ||| c == '\u{202f}'
    ||| c == '\u{205f}'
    ||| c == '\u{3000}'
}

/// Whether `c` is white space, as [`is_space`] says.
pub fn is_whitespace(c: char) -> (r: bool)
    ensures
        r == is_space(c),
{
    ('\u{9}' <= c && c <= '\u{d}') || c == '\u{20}' || c == '\u{85}' || c == '\u{a0}' || c
        == '\u{1680}' || ('\u{2000}' <= c && c <= '\u{200a}') || c == '\u{2028}' || c == '\u{2029}'
        || c == '\u{202f}' || c == '\u{205f}' || c == '\u{3000}'
}

/// `s` without its leading white space.
pub open spec fn trimmed_start(s: Seq<char>) -> Seq<char>
    decreases s.len(),
{
    if s.len() > 0 && is_space(s.first()) {
        trimmed_start(s.drop_first())
    } else {
        s
    }
}

/// `s` without its trailing white space.
pub open spec fn trimmed_end(s: Seq<char>) -> Seq<char>
    decreases s.len(),
{
    if s.len() > 0 && is_space(s.last()) {
        trimmed_end(s.drop_last())
    } else {
        s
    }
}

/// `s` without white space at either end.
pub open spec fn trimmed(s: Seq<char>) -> Seq<char> {
    trimmed_end(trimmed_start(s))
}

/// A line without the carriage return that its line feed may have had before it.
pub open spec fn without_cr(line: Seq<char>) -> Seq<char> {
    if line.len() > 0 && line.last() == '\r' {
        line.drop_last()
    } else {
        line
    }
}

/// The lines of `s`: it is cut after each line feed, and a line holds neither
/// its line feed nor a carriage return directly before that. The last line may
/// lack its line feed.
pub open spec fn lines_of(s: Seq<char>) -> Seq<Seq<char>>
    decreases s.len(),
{
    if s.len() == 0 {
        Seq::empty()
    } else if !s.contains('\n') {
        seq![s]
    } else {
        let n = s.index_of_first('\n')->0;
        if 0 <= n < s.len() {
            seq![without_cr(s.take(n))] + lines_of(s.skip(n + 1))
        } else {
            Seq::empty()
        }
    }
}

/// Whether `needle` stands somewhere in `s`.
pub open spec fn holds(s: Seq<char>, needle: Seq<char>) -> bool {
    exists|i: int|
        0 <= i <= s.len() - needle.len() && #[trigger] s.subrange(i, i + needle.len()) == needle
}

/// `c` in lower case if it is an ASCII letter, else `c`.
pub open spec fn ascii_lower(c: char) -> char {
    if 'A' <= c <= 'Z' {
        (c as u8 + 32) as u8 as char
    } else {
        c
    }
}

/// `s` with its ASCII letters in lower case.
pub open spec fn ascii_lowered(s: Seq<char>) -> Seq<char> {
    s.map_values(|c: char| ascii_lower(c))
}

/// The contents of a vector of strings.
pub open spec fn views(v: Seq<String>) -> Seq<Seq<char>> {
    v.map_values(|s: String| s@)
}

/// The pieces of `parts` with `sep` between each two neighbours.
pub open spec fn joined(parts: Seq<Seq<char>>, sep: Seq<char>) -> Seq<char>
    decreases parts.len(),
{
    if parts.len() == 0 {
        Seq::empty()
    } else if parts.len() == 1 {
        parts[0]
    } else {
        joined(parts.drop_last(), sep) + sep + parts.last()
    }
}

/// The characters of `s`.
pub fn chars_of(s: &str) -> (r: Vec<char>)
    ensures
        r@ == s@,
{
    let mut r: Vec<char> = Vec::new();
    for c in it: s.chars()
        invariant
            it.seq() == s@,
            r@ == s@.take(it.index() as int),
    {
        r.push(c);
    }
    r
}

/// The string made of `chars[from..to]`.
pub fn string_of(chars: &Vec<char>, from: usize, to: usize) -> (r: String)
    requires
        from <= to <= chars@.len(),
    ensures
        r@ == chars@.subrange(from as int, to as int),
{
    let mut r = String::new();
    let mut i: usize = from;
    while i < to
        invariant
            from <= i <= to <= chars@.len(),
            r@ == chars@.subrange(from as int, i as int),
        decreases to - i,
    {
        r.push(chars[i]);
        i += 1;
    }
    r
}

proof fn lemma_trim_start(s: Seq<char>, n: int)
    requires
        0 <= n <= s.len(),
        forall|i: int| 0 <= i < n ==> is_space(s[i]),
        n < s.len() ==> !is_space(s[n]),
    ensures
        trimmed_start(s) == s.skip(n),
    decreases n,
{
    if n > 0 {
        lemma_trim_start(s.drop_first(), n - 1);
        assert(s.drop_first().skip(n - 1) =~= s.skip(n));
    } else {
        assert(s.skip(0) =~= s);
    }
}

proof fn lemma_trim_end(s: Seq<char>, n: int)
    requires
        0 <= n <= s.len(),
        forall|i: int| n <= i < s.len() ==> is_space(s[i]),
        n > 0 ==> !is_space(s[n - 1]),
    ensures
        trimmed_end(s) == s.take(n),
    decreases s.len() - n,
{
    if n < s.len() {
        lemma_trim_end(s.drop_last(), n);
        assert(s.drop_last().take(n) =~= s.take(n));
    } else {
        assert(s.take(n) =~= s);
    }
}

/// `s` without white space at either end.
pub fn trim(s: &str) -> (r: String)
    ensures
        r@ == trimmed(s@),
{
    let chars = chars_of(s);
    let n: usize = chars.len();
    let mut start: usize = 0;
    while start < n && is_whitespace(chars[start])
        invariant
            start <= n == chars@.len(),
            forall|i: int| 0 <= i < start ==> is_space(chars@[i]),
        decreases n - start,
    {
        start += 1;
    }
    let mut end: usize = n;
    while start < end && is_whitespace(chars[end - 1])
        invariant
            start <= end <= n == chars@.len(),
            forall|i: int| end <= i < n ==> is_space(chars@[i]),
        decreases end,
    {
        end -= 1;
    }
    proof {
        lemma_trim_start(s@, start as int);
        let rest = s@.skip(start as int);
        lemma_trim_end(rest, end - start);
        assert(rest.take(end - start) =~= s@.subrange(start as int, end as int));
    }
    string_of(&chars, start, end)
}

proof fn lemma_lines_step(cur: Seq<char>, rest: Seq<char>)
    requires
        !cur.contains('\n'),
    ensures
        lines_of(cur + seq!['\n'] + rest) == seq![without_cr(cur)] + lines_of(rest),
{
    let s = cur + seq!['\n'] + rest;
    assert(s[cur.len() as int] == '\n');
    assert(s.contains('\n'));
    let n = s.index_of_first('\n')->0;
    s.index_of_first_ensures('\n');
    assert(n == cur.len()) by {
        if n < cur.len() {
            assert(cur[n] == '\n');
            assert(cur.contains('\n'));
        }
    }
    assert(s.take(n) =~= cur);
    assert(s.skip(n + 1) =~= rest);
}

/// The lines of `s`.
pub fn lines(s: &str) -> (r: Vec<String>)
    ensures
        views(r@) == lines_of(s@),
{
    let chars = chars_of(s);
    let n: usize = chars.len();
    let mut r: Vec<String> = Vec::new();
    let mut start: usize = 0;
    let mut i: usize = 0;
    proof {
        assert(s@.subrange(0, 0) + s@.skip(0) =~= s@);
    }
    while i < n
        invariant
            start <= i <= n == chars@.len(),
            chars@ == s@,
            !s@.subrange(start as int, i as int).contains('\n'),
            lines_of(s@) == views(r@) + lines_of(
                s@.subrange(start as int, i as int) + s@.skip(i as int),
            ),
        decreases n - i,
    {
        let ghost cur = s@.subrange(start as int, i as int);
        let ghost rest = s@.skip(i + 1);
        if chars[i] == '\n' {
            let mut end: usize = i;
            if start < end && chars[end - 1] == '\r' {
                end -= 1;
            }
            let line = string_of(&chars, start, end);
            let ghost before = views(r@);
            r.push(line);
            start = i + 1;
            proof {
                assert(cur + s@.skip(i as int) =~= cur + seq!['\n'] + rest);
                lemma_lines_step(cur, rest);
                assert(line@ =~= without_cr(cur));
                assert(views(r@) =~= before.push(line@));
                assert(before + (seq![line@] + lines_of(rest)) =~= views(r@) + lines_of(rest));
                assert(s@.subrange(i + 1, i + 1) + rest =~= rest);
            }
        } else {
            proof {
                let next = s@.subrange(start as int, i + 1);
                assert(next =~= cur.push(s@[i as int]));
                assert(!next.contains('\n')) by {
                    if next.contains('\n') {
                        let k = choose|k: int| 0 <= k < next.len() && next[k] == '\n';
                        assert(k < cur.len() ==> cur[k] == '\n');
                    }
                }
                assert(cur + s@.skip(i as int) =~= next + rest);
            }
        }
        i += 1;
    }
    let ghost cur = s@.subrange(start as int, n as int);
    assert(cur + s@.skip(n as int) =~= cur);
    if start < n {
        let line = string_of(&chars, start, n);
        let ghost before = views(r@);
        r.push(line);
        proof {
            assert(line@ =~= cur);
            assert(views(r@) =~= before.push(cur));
            assert(before + seq![cur] =~= before.push(cur));
        }
    } else {
        assert(lines_of(cur) =~= Seq::<Seq<char>>::empty());
        assert(views(r@) + Seq::<Seq<char>>::empty() =~= views(r@));
    }
    r
}

/// Whether `s` begins with `prefix`.
pub fn begins_with(s: &Vec<char>, prefix: &str) -> (r: bool)
    ensures
        r == prefix@.is_prefix_of(s@),
{
    let mut i: usize = 0;
    for c in it: prefix.chars()
        invariant
            it.seq() == prefix@,
            i == it.index() <= s@.len(),
            prefix@.take(i as int) =~= s@.take(i as int),
    {
        assert(prefix@[i as int] == c);
        if i == s.len() || s[i] != c {
            assert(!prefix@.is_prefix_of(s@));
            return false;
        }
        assert(prefix@.take(i + 1) =~= prefix@.take(i as int).push(c));
        assert(s@.take(i + 1) =~= s@.take(i as int).push(c));
        i += 1;
    }
    assert(prefix@.take(prefix@.len() as int) =~= prefix@);
    assert(s@.subrange(0, prefix@.len() as int) =~= s@.take(prefix@.len() as int));
    true
}

/// Whether `needle` stands in `s` at position `at`.
fn stands_at(s: &Vec<char>, needle: &Vec<char>, at: usize) -> (r: bool)
    requires
        at + needle@.len() <= s@.len(),
    ensures
        r == (s@.subrange(at as int, at + needle@.len()) == needle@),
{
    let len: usize = s.len();
    let n: usize = needle.len();
    let mut k: usize = 0;
    while k < n
        invariant
            k <= n == needle@.len(),
            at + n <= len == s@.len(),
            forall|j: int| 0 <= j < k ==> s@[at + j] == needle@[j],
        decreases n - k,
    {
        if s[at + k] != needle[k] {
            assert(s@.subrange(at as int, at + n)[k as int] != needle@[k as int]);
            return false;
        }
        k += 1;
    }
    assert(s@.subrange(at as int, at + n) =~= needle@);
    true
}

/// Whether `needle` stands somewhere in `s`.
pub fn contains(s: &Vec<char>, needle: &str) -> (r: bool)
    ensures
        r == holds(s@, needle@),
{
    let pattern = chars_of(needle);
    if pattern.len() > s.len() {
        return false;
    }
    let last: usize = s.len() - pattern.len();
    let mut i: usize = 0;
    while i <= last
        invariant
            pattern@ == needle@,
            last == s@.len() - needle@.len(),
            i <= last + 1,
            forall|j: int|
                0 <= j < i ==> #[trigger] s@.subrange(j, j + needle@.len()) != needle@,
        decreases last + 1 - i,
    {
        if stands_at(s, &pattern, i) {
            return true;
        }
        if i == last {
            return false;
        }
        i += 1;
    }
    false
}

/// `c` in lower case if it is an ASCII letter, else `c`.
fn lower_char(c: char) -> (r: char)
    ensures
        r == ascii_lower(c),
{
    if 'A' <= c && c <= 'Z' {
        (c as u8 + 32) as char
    } else {
        c
    }
}

/// `s` with its ASCII letters in lower case.
pub fn to_ascii_lowercase(s: &str) -> (r: String)
    ensures
        r@ == ascii_lowered(s@),
{
    let mut r = String::new();
    for c in it: s.chars()
        invariant
            it.seq() == s@,
            r@ == ascii_lowered(s@.take(it.index() as int)),
    {
        assert(s@.take(it.index() + 1) =~= s@.take(it.index() as int).push(c));
        assert(ascii_lowered(s@.take(it.index() + 1)) =~= ascii_lowered(
            s@.take(it.index() as int),
        ).push(ascii_lower(c)));
        r.push(lower_char(c));
    }
    assert(s@.take(s@.len() as int) =~= s@);
    r
}

/// The strings `parts[from..to]` with `sep` between each two neighbours.
pub fn join(parts: &Vec<String>, from: usize, to: usize, sep: &str) -> (r: String)
    requires
        from <= to <= parts@.len(),
    ensures
        r@ == joined(views(parts@).subrange(from as int, to as int), sep@),
{
    let mut r = String::new();
    let mut i: usize = from;
    while i < to
        invariant
            from <= i <= to <= parts@.len(),
            r@ == joined(views(parts@).subrange(from as int, i as int), sep@),
        decreases to - i,
    {
        if i > from {
            r.append(sep);
        }
        r.append(parts[i].as_str());
        proof {
            let now = views(parts@).subrange(from as int, i + 1);
            assert(now.drop_last() =~= views(parts@).subrange(from as int, i as int));
            assert(now.last() == parts@[i as int]@);
            if i == from {
                assert(Seq::<char>::empty() + parts@[i as int]@ =~= parts@[i as int]@);
            }
        }
        i += 1;
    }
    r
}

/// The set of the strings in `v`.
pub fn string_set(v: &Vec<String>) -> (r: StringHashSet)
    ensures
        r@ == views(v@).to_set(),
{
    let n: usize = v.len();
    let mut r = StringHashSet::new();
    assert(views(v@).take(0).to_set() =~= Set::<Seq<char>>::empty());
    let mut i: usize = 0;
    while i < n
        invariant
            i <= n == v@.len(),
            r@ == views(v@).take(i as int).to_set(),
        decreases n - i,
    {
        r.insert(v[i].clone());
        proof {
            let taken = views(v@).take(i as int);
            assert(views(v@).take(i + 1) =~= taken.push(v@[i as int]@));
            taken.lemma_push_to_set_commute(v@[i as int]@);
        }
        i += 1;
    }
    assert(views(v@).take(n as int) =~= views(v@));
    r
}

/// Whether `s` is one of `v`.
pub fn has_string(v: &Vec<String>, s: &String) -> (r: bool)
    ensures
        r == views(v@).contains(s@),
{
    let n: usize = v.len();
    let mut i: usize = 0;
    while i < n
        invariant
            i <= n == v@.len(),
            forall|j: int| 0 <= j < i ==> #[trigger] v@[j]@ != s@,
        decreases n - i,
    {
        if v[i] == *s {
            assert(views(v@)[i as int] == s@);
            return true;
        }
        i += 1;
    }
    assert forall|j: int| 0 <= j < views(v@).len() implies views(v@)[j] != s@ by {
        assert(v@[j]@ != s@);
    }
    false
}

proof fn lemma_trimmed_start(s: Seq<char>)
    ensures
        exists|lead: Seq<char>|
            {
                &&& #[trigger] (lead + trimmed_start(s)) == s
                &&& forall|i: int| 0 <= i < lead.len() ==> is_space(#[trigger] lead[i])
            },
        trimmed_start(s).len() > 0 ==> !is_space(trimmed_start(s).first()),
    decreases s.len(),
{
    if s.len() > 0 && is_space(s.first()) {
        lemma_trimmed_start(s.drop_first());
        let rest = s.drop_first();
        let lead = choose|lead: Seq<char>|
            {
                &&& #[trigger] (lead + trimmed_start(rest)) == rest
                &&& forall|i: int| 0 <= i < lead.len() ==> is_space(#[trigger] lead[i])
            };
        let all = seq![s.first()] + lead;
        assert(all + trimmed_start(s) =~= s) by {
            assert(s =~= seq![s.first()] + rest);
        }
        assert forall|i: int| 0 <= i < all.len() implies is_space(#[trigger] all[i]) by {
            if i > 0 {
                assert(all[i] == lead[i - 1]);
            }
        }
    } else {
        assert(Seq::<char>::empty() + trimmed_start(s) =~= s);
    }
}

proof fn lemma_trimmed_end(s: Seq<char>)
    ensures
        exists|trail: Seq<char>|
            {
                &&& #[trigger] (trimmed_end(s) + trail) == s
                &&& forall|i: int| 0 <= i < trail.len() ==> is_space(#[trigger] trail[i])
            },
        trimmed_end(s).len() > 0 ==> !is_space(trimmed_end(s).last()) && trimmed_end(s).first()
            == s.first(),
    decreases s.len(),
{
    if s.len() > 0 && is_space(s.last()) {
        lemma_trimmed_end(s.drop_last());
        let rest = s.drop_last();
        let trail = choose|trail: Seq<char>|
            {
                &&& #[trigger] (trimmed_end(rest) + trail) == rest
                &&& forall|i: int| 0 <= i < trail.len() ==> is_space(#[trigger] trail[i])
            };
        let all = trail + seq![s.last()];
        assert(trimmed_end(s) + all =~= s) by {
            assert(s =~= rest + seq![s.last()]);
        }
        assert forall|i: int| 0 <= i < all.len() implies is_space(#[trigger] all[i]) by {
            if i < trail.len() {
                assert(all[i] == trail[i]);
            }
        }
        if trimmed_end(s).len() > 0 {
            assert((trimmed_end(rest) + trail)[0] == trimmed_end(rest)[0]);
        }
    } else {
        assert(trimmed_end(s) + Seq::<char>::empty() =~= s);
    }
}

/// Trimming takes white space from both ends and nothing else, and leaves none
/// there.
pub proof fn law_trim(s: &str, r: String)
    requires
        call_ensures(trim, (s,), r),
    ensures
        exists|lead: Seq<char>, trail: Seq<char>|
            {
                &&& #[trigger] (lead + r@ + trail) == s@
                &&& forall|i: int| 0 <= i < lead.len() ==> is_space(#[trigger] lead[i])
                &&& forall|i: int| 0 <= i < trail.len() ==> is_space(#[trigger] trail[i])
            },
        r@.len() > 0 ==> !is_space(r@.first()) && !is_space(r@.last()),
{
    let half = trimmed_start(s@);
    lemma_trimmed_start(s@);
    lemma_trimmed_end(half);
    let lead = choose|lead: Seq<char>|
        {
            &&& #[trigger] (lead + half) == s@
            &&& forall|i: int| 0 <= i < lead.len() ==> is_space(#[trigger] lead[i])
        };
    let trail = choose|trail: Seq<char>|
        {
            &&& #[trigger] (trimmed_end(half) + trail) == half
            &&& forall|i: int| 0 <= i < trail.len() ==> is_space(#[trigger] trail[i])
        };
    assert(lead + r@ + trail =~= s@);
}

/// The first line of a text ends at its first line feed, with a carriage return
/// before that left out, and the other lines are those of the rest.
pub proof fn law_lines_split(
    s: &str,
    first: Seq<char>,
    rest: &str,
    r: Vec<String>,
    others: Vec<String>,
)
    requires
        call_ensures(lines, (s,), r),
        call_ensures(lines, (rest,), others),
        s@ == first + seq!['\n'] + rest@,
        !first.contains('\n'),
    ensures
        r@.len() == others@.len() + 1,
        first.len() > 0 && first.last() == '\r' ==> r@[0]@ == first.drop_last(),
        !(first.len() > 0 && first.last() == '\r') ==> r@[0]@ == first,
        forall|i: int| 0 <= i < others@.len() ==> (#[trigger] others@[i])@ == r@[i + 1]@,
{
    let n = first.len() as int;
    assert(s@[n] == '\n');
    assert(s@.contains('\n'));
    s@.index_of_first_ensures('\n');
    let at = s@.index_of_first('\n')->0;
    if at < n {
        assert(s@[at] == first[at]);
        assert(first.contains('\n'));
    }
    assert(at == n);
    assert(s@.take(n) =~= first);
    assert(s@.skip(n + 1) =~= rest@);
    assert(views(r@) == seq![without_cr(first)] + lines_of(rest@));
    assert(views(r@).len() == r@.len() && views(others@).len() == others@.len());
    assert(views(r@)[0] == r@[0]@);
    assert forall|i: int| 0 <= i < others@.len() implies (#[trigger] others@[i])@ == r@[i + 1]@ by {
        assert(views(others@)[i] == others@[i]@);
        assert(views(r@)[i + 1] == r@[i + 1]@);
        assert((seq![without_cr(first)] + lines_of(rest@))[i + 1] == lines_of(rest@)[i]);
    }
}

/// A text without a line feed is one line as it stands, and none if it is empty.
pub proof fn law_lines_single(s: &str, r: Vec<String>)
    requires
        call_ensures(lines, (s,), r),
        !s@.contains('\n'),
    ensures
        s@.len() == 0 ==> r@.len() == 0,
        s@.len() > 0 ==> r@.len() == 1 && r@[0]@ == s@,
{
    assert(views(r@).len() == r@.len());
    if s@.len() > 0 {
        assert(views(r@)[0] == r@[0]@);
    }
}

/// A prefix is followed by some rest.
pub proof fn law_begins_with(s: Vec<char>, prefix: &str, r: bool)
    requires
        call_ensures(begins_with, (&s, prefix), r),
    ensures
        r <==> exists|rest: Seq<char>| s@ == #[trigger] (prefix@ + rest),
{
    if prefix@.is_prefix_of(s@) {
        assert(s@ =~= prefix@ + s@.skip(prefix@.len() as int));
    }
    if exists|rest: Seq<char>| s@ == #[trigger] (prefix@ + rest) {
        let rest = choose|rest: Seq<char>| s@ == #[trigger] (prefix@ + rest);
        assert((prefix@ + rest).subrange(0, prefix@.len() as int) =~= prefix@);
    }
}

/// A text holds what stands in it between some front and some back.
pub proof fn law_holds(s: Seq<char>, needle: Seq<char>)
    ensures
        holds(s, needle) <==> exists|front: Seq<char>, back: Seq<char>|
            s == #[trigger] (front + needle + back),
{
    if holds(s, needle) {
        let i = choose|i: int|
            0 <= i <= s.len() - needle.len() && #[trigger] s.subrange(i, i + needle.len())
                == needle;
        assert(s =~= s.take(i) + needle + s.skip(i + needle.len()));
    }
    if exists|front: Seq<char>, back: Seq<char>| s == #[trigger] (front + needle + back) {
        let (front, back) = choose|front: Seq<char>, back: Seq<char>|
            s == #[trigger] (front + needle + back);
        let i = front.len() as int;
        assert(s.subrange(i, i + needle.len()) =~= needle);
    }
}

/// A text contains what stands in it between some front and some back.
pub proof fn law_contains(s: Vec<char>, needle: &str, r: bool)
    requires
        call_ensures(contains, (&s, needle), r),
    ensures
        r <==> exists|front: Seq<char>, back: Seq<char>|
            s@ == #[trigger] (front + needle@ + back),
{
    law_holds(s@, needle@);
}

/// Lower case adds 32 to the code of each letter from `A` to `Z` and leaves the
/// other characters alone.
pub proof fn law_ascii_lowered(s: Seq<char>)
    ensures
        ascii_lowered(s).len() == s.len(),
        forall|i: int|
            0 <= i < s.len() ==> {
                let c = #[trigger] s[i] as u32;
                (ascii_lowered(s)[i] as u32) == if 65 <= c <= 90 {
                    c + 32
                } else {
                    c as int
                }
            },
{
    assert forall|i: int| 0 <= i < s.len() implies {
        let c = #[trigger] s[i] as u32;
        (ascii_lowered(s)[i] as u32) == if 65 <= c <= 90 {
            c + 32
        } else {
            c as int
        }
    } by {
        let c = s[i];
        if 'A' <= c <= 'Z' {
            let b = c as u8;
            assert(65 <= b <= 90);
        }
    }
}

/// Lowering a string lowers its characters as `law_ascii_lowered` says.
pub proof fn law_to_ascii_lowercase(s: &str, r: String)
    requires
        call_ensures(to_ascii_lowercase, (s,), r),
    ensures
        r@.len() == s@.len(),
        forall|i: int|
            0 <= i < s@.len() ==> {
                let c = #[trigger] s@[i] as u32;
                (r@[i] as u32) == if 65 <= c <= 90 {
                    c + 32
                } else {
                    c as int
                }
            },
{
    law_ascii_lowered(s@);
}

/// Joining no part gives nothing, joining one part gives that part, and one more
/// part adds the separator and the part.
pub proof fn law_join(
    parts: Vec<String>,
    from: usize,
    to: usize,
    next: usize,
    sep: &str,
    r: String,
    more: String,
)
    requires
        from <= to < next == to + 1 <= parts@.len(),
        call_ensures(join, (&parts, from, to, sep), r),
        call_ensures(join, (&parts, from, next, sep), more),
    ensures
        from == to ==> r@.len() == 0 && more@ == parts@[to as int]@,
        from < to ==> more@ == r@ + sep@ + parts@[to as int]@,
{
    let all = views(parts@);
    let now = all.subrange(from as int, to + 1);
    assert(now.drop_last() =~= all.subrange(from as int, to as int));
    assert(now.last() == parts@[to as int]@);
}

} // verus!

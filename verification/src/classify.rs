//! Classification of a change by the lines it touches.

use vstd::hash_set::StringHashSet;
use vstd::prelude::*;

use crate::text::{
    begins_with, chars_of, contains, holds, law_holds, lines, lines_of, string_set, trim, trimmed,
    views,
};
use crate::types::{ChangeClassification, SemanticChange};

verus! {

/// Whether a trimmed line is a comment.
pub open spec fn is_comment(line: Seq<char>) -> bool {
    ||| "//"@.is_prefix_of(line)
    ||| "/*"@.is_prefix_of(line)
    ||| "*"@.is_prefix_of(line)
    ||| "///"@.is_prefix_of(line)
    ||| "/**"@.is_prefix_of(line)
    ||| "\"\"\""@.is_prefix_of(line)
    ||| "#"@.is_prefix_of(line) && !"#["@.is_prefix_of(line)
}

/// Whether a trimmed line declares something or carries type syntax.
pub open spec fn is_syntax(line: Seq<char>) -> bool {
    ||| "fn "@.is_prefix_of(line)
    ||| "pub fn "@.is_prefix_of(line)
    ||| "pub(crate) fn "@.is_prefix_of(line)
    ||| "def "@.is_prefix_of(line)
    ||| "class "@.is_prefix_of(line)
    ||| "struct "@.is_prefix_of(line)
    ||| "enum "@.is_prefix_of(line)
    ||| "trait "@.is_prefix_of(line)
    ||| "impl "@.is_prefix_of(line)
    ||| "interface "@.is_prefix_of(line)
    ||| "type "@.is_prefix_of(line)
    ||| "pub struct "@.is_prefix_of(line)
    ||| "pub enum "@.is_prefix_of(line)
    ||| "pub trait "@.is_prefix_of(line)
    ||| "async fn "@.is_prefix_of(line)
    ||| "pub async fn "@.is_prefix_of(line)
    ||| "function "@.is_prefix_of(line)
    ||| "export function "@.is_prefix_of(line)
    ||| "export default "@.is_prefix_of(line)
    ||| holds(line, "->"@)
    ||| holds(line, "=> "@)
    ||| holds(line, ": &"@)
    ||| holds(line, ": Vec<"@)
    ||| holds(line, ": Option<"@)
    ||| holds(line, ": Result<"@)
}

/// Whether `line` is one of the lines of `s`, trimmed and not empty.
pub open spec fn has_line(s: Seq<char>, line: Seq<char>) -> bool {
    &&& line.len() > 0
    &&& exists|i: int| 0 <= i < lines_of(s).len() && #[trigger] trimmed(lines_of(s)[i]) == line
}

/// Whether `line` stands on one side of the change only.
pub open spec fn is_changed_line(before: Seq<char>, after: Seq<char>, line: Seq<char>) -> bool {
    has_line(before, line) != has_line(after, line)
}

/// Whether a comment was added or removed.
pub open spec fn touches_text(before: Seq<char>, after: Seq<char>) -> bool {
    exists|line: Seq<char>| #[trigger]
        is_changed_line(before, after, line) && is_comment(line)
}

/// Whether a line of syntax was added or removed.
pub open spec fn touches_syntax(before: Seq<char>, after: Seq<char>) -> bool {
    exists|line: Seq<char>| #[trigger]
        is_changed_line(before, after, line) && !is_comment(line) && is_syntax(line)
}

/// Whether any other line was added or removed.
pub open spec fn touches_function(before: Seq<char>, after: Seq<char>) -> bool {
    exists|line: Seq<char>| #[trigger]
        is_changed_line(before, after, line) && !is_comment(line) && !is_syntax(line)
}

/// The classification with the given dimensions; with none it is `Text`.
pub open spec fn with_dimensions(
    text: bool,
    syntax: bool,
    functional: bool,
) -> ChangeClassification {
    if text && syntax && functional {
        ChangeClassification::TextSyntaxFunctional
    } else if text && syntax {
        ChangeClassification::TextSyntax
    } else if text && functional {
        ChangeClassification::TextFunctional
    } else if syntax && functional {
        ChangeClassification::SyntaxFunctional
    } else if syntax {
        ChangeClassification::Syntax
    } else if functional {
        ChangeClassification::Functional
    } else {
        ChangeClassification::Text
    }
}

/// How a change from `before` to `after` is classified.
///
/// An entity that appears or disappears is functional. A change that is known
/// to leave the structure alone is text. Otherwise the lines that stand on one
/// side only decide; where there is none, text that differs beyond surrounding
/// white space is functional.
pub open spec fn classification_of(
    before: Seq<char>,
    after: Seq<char>,
    structural: Option<bool>,
) -> ChangeClassification {
    let text = touches_text(before, after);
    let syntax = touches_syntax(before, after);
    let functional = touches_function(before, after);
    if before.len() == 0 || after.len() == 0 {
        ChangeClassification::Functional
    } else if structural == Some(false) {
        ChangeClassification::Text
    } else if text || syntax || functional {
        with_dimensions(text, syntax, functional)
    } else if trimmed(before) != trimmed(after) {
        ChangeClassification::Functional
    } else {
        ChangeClassification::Text
    }
}

/// The text of an optional content; nothing is the empty text.
pub open spec fn content_of(content: Option<String>) -> Seq<char> {
    match content {
        Some(text) => text@,
        None => Seq::empty(),
    }
}

/// How `change` is classified.
pub open spec fn change_classification(change: SemanticChange) -> ChangeClassification {
    classification_of(
        content_of(change.before_content),
        content_of(change.after_content),
        change.structural_change,
    )
}

/// Whether a trimmed line is a comment.
pub fn is_comment_line(line: &str) -> (r: bool)
    ensures
        r == is_comment(line@),
{
    let line = chars_of(line);
    begins_with(&line, "//") || begins_with(&line, "/*") || begins_with(&line, "*") || begins_with(
        &line,
        "///",
    ) || begins_with(&line, "/**") || begins_with(&line, "\"\"\"") || (begins_with(&line, "#")
        && !begins_with(&line, "#["))
}

/// Whether a trimmed line declares something or carries type syntax.
pub fn is_syntax_line(line: &str) -> (r: bool)
    ensures
        r == is_syntax(line@),
{
    let line = chars_of(line);
    begins_with(&line, "fn ")
        || begins_with(&line, "pub fn ")
        || begins_with(&line, "pub(crate) fn ")
        || begins_with(&line, "def ")
        || begins_with(&line, "class ")
        || begins_with(&line, "struct ")
        || begins_with(&line, "enum ")
        || begins_with(&line, "trait ")
        || begins_with(&line, "impl ")
        || begins_with(&line, "interface ")
        || begins_with(&line, "type ")
        || begins_with(&line, "pub struct ")
        || begins_with(&line, "pub enum ")
        || begins_with(&line, "pub trait ")
        || begins_with(&line, "async fn ")
        || begins_with(&line, "pub async fn ")
        || begins_with(&line, "function ")
        || begins_with(&line, "export function ")
        || begins_with(&line, "export default ")
        || contains(&line, "->")
        || contains(&line, "=> ")
        || contains(&line, ": &")
        || contains(&line, ": Vec<")
        || contains(&line, ": Option<")
        || contains(&line, ": Result<")
}

/// Sets the flag of the dimension that `line` belongs to.
pub fn categorize_line(
    line: &str,
    has_text: &mut bool,
    has_syntax: &mut bool,
    has_functional: &mut bool,
)
    ensures
        *final(has_text) == (*old(has_text) || is_comment(line@)),
        *final(has_syntax) == (*old(has_syntax) || (!is_comment(line@) && is_syntax(line@))),
        *final(has_functional) == (*old(has_functional) || (!is_comment(line@) && !is_syntax(
            line@,
        ))),
{
    if is_comment_line(line) {
        *has_text = true;
    } else if is_syntax_line(line) {
        *has_syntax = true;
    } else {
        *has_functional = true;
    }
}

/// The lines of `s`, trimmed, without the empty ones.
fn content_lines(s: &str) -> (r: Vec<String>)
    ensures
        forall|line: Seq<char>| #[trigger] views(r@).contains(line) <==> has_line(s@, line),
{
    let all = lines(s);
    let n: usize = all.len();
    let mut r: Vec<String> = Vec::new();
    let mut i: usize = 0;
    while i < n
        invariant
            i <= n == all@.len(),
            views(all@) == lines_of(s@),
            forall|line: Seq<char>| #[trigger]
                views(r@).contains(line) <==> line.len() > 0 && exists|k: int|
                    0 <= k < i && #[trigger] trimmed(lines_of(s@)[k]) == line,
        decreases n - i,
    {
        assert(lines_of(s@)[i as int] == all@[i as int]@);
        let line = trim(all[i].as_str());
        let ghost old_r = r@;
        let ghost here = line@;
        assert(here == trimmed(lines_of(s@)[i as int]));
        if !line.as_str().is_empty() {
            r.push(line);
            assert(views(r@) =~= views(old_r).push(here));
        }
        proof {
            assert forall|line: Seq<char>| #[trigger] views(r@).contains(line) <==> line.len() > 0
                && exists|k: int| 0 <= k < i + 1 && #[trigger] trimmed(lines_of(s@)[k]) == line by {
                if here.len() > 0 {
                    assert(views(r@).last() == here);
                    if views(r@).contains(line) && line != here {
                        let k = choose|k: int| 0 <= k < views(r@).len() && views(r@)[k] == line;
                        assert(views(old_r)[k] == line);
                    }
                    if views(old_r).contains(line) {
                        let k = choose|k: int|
                            0 <= k < views(old_r).len() && views(old_r)[k] == line;
                        assert(views(r@)[k] == line);
                    }
                }
                if views(old_r).contains(line) {
                    assert(views(r@).contains(line));
                }
            }
        }
        i += 1;
    }
    r
}

/// Sets the flags of the dimensions that the strings of `lines` outside `other`
/// belong to.
fn categorize_missing(
    lines: &Vec<String>,
    other: &StringHashSet,
    has_text: &mut bool,
    has_syntax: &mut bool,
    has_functional: &mut bool,
)
    ensures
        *final(has_text) == (*old(has_text) || exists|line: Seq<char>|
            #![trigger views(lines@).contains(line)]
            views(lines@).contains(line) && !other@.contains(line) && is_comment(line)),
        *final(has_syntax) == (*old(has_syntax) || exists|line: Seq<char>|
            #![trigger views(lines@).contains(line)]
            views(lines@).contains(line) && !other@.contains(line) && !is_comment(line)
                && is_syntax(line)),
        *final(has_functional) == (*old(has_functional) || exists|line: Seq<char>|
            #![trigger views(lines@).contains(line)]
            views(lines@).contains(line) && !other@.contains(line) && !is_comment(line)
                && !is_syntax(line)),
{
    let n: usize = lines.len();
    let mut i: usize = 0;
    while i < n
        invariant
            i <= n == lines@.len(),
            *has_text == (*old(has_text) || exists|k: int|
                0 <= k < i && !other@.contains(#[trigger] views(lines@)[k]) && is_comment(
                    views(lines@)[k],
                )),
            *has_syntax == (*old(has_syntax) || exists|k: int|
                0 <= k < i && !other@.contains(#[trigger] views(lines@)[k]) && !is_comment(
                    views(lines@)[k],
                ) && is_syntax(views(lines@)[k])),
            *has_functional == (*old(has_functional) || exists|k: int|
                0 <= k < i && !other@.contains(#[trigger] views(lines@)[k]) && !is_comment(
                    views(lines@)[k],
                ) && !is_syntax(views(lines@)[k])),
        decreases n - i,
    {
        let line = lines[i].as_str();
        assert(line@ == views(lines@)[i as int]);
        if !other.contains(line) {
            categorize_line(line, has_text, has_syntax, has_functional);
        }
        i += 1;
    }
    assert(forall|k: int|
        0 <= k < views(lines@).len() ==> views(lines@).contains(#[trigger] views(lines@)[k]));
}

/// Classifies a change by the ConGra taxonomy: compares the lines of the two
/// sides and tells which dimensions (text, syntax, functional) changed.
pub fn classify_change(change: &SemanticChange) -> (r: ChangeClassification)
    ensures
        r == change_classification(*change),
{
    let empty = String::new();
    let before = match &change.before_content {
        Some(text) => text.as_str(),
        None => empty.as_str(),
    };
    let after = match &change.after_content {
        Some(text) => text.as_str(),
        None => empty.as_str(),
    };
    if before.is_empty() || after.is_empty() {
        return ChangeClassification::Functional;
    }
    if let Some(false) = change.structural_change {
        return ChangeClassification::Text;
    }
    let before_lines = content_lines(before);
    let after_lines = content_lines(after);
    let before_set = string_set(&before_lines);
    let after_set = string_set(&after_lines);
    let mut has_text = false;
    let mut has_syntax = false;
    let mut has_functional = false;
    categorize_missing(
        &before_lines,
        &after_set,
        &mut has_text,
        &mut has_syntax,
        &mut has_functional,
    );
    categorize_missing(
        &after_lines,
        &before_set,
        &mut has_text,
        &mut has_syntax,
        &mut has_functional,
    );
    proof {
        assert forall|line: Seq<char>| #[trigger]
            is_changed_line(before@, after@, line) implies views(before_lines@).contains(line)
            || views(after_lines@).contains(line) by {}
        assert(has_text == touches_text(before@, after@)) by {
            if has_text {
                let line = choose|line: Seq<char>|
                    views(before_lines@).contains(line) != views(after_lines@).contains(line)
                        && is_comment(line);
                assert(is_changed_line(before@, after@, line));
            }
        }
        assert(has_syntax == touches_syntax(before@, after@)) by {
            if has_syntax {
                let line = choose|line: Seq<char>|
                    views(before_lines@).contains(line) != views(after_lines@).contains(line)
                        && !is_comment(line) && is_syntax(line);
                assert(is_changed_line(before@, after@, line));
            }
        }
        assert(has_functional == touches_function(before@, after@)) by {
            if has_functional {
                let line = choose|line: Seq<char>|
                    views(before_lines@).contains(line) != views(after_lines@).contains(line)
                        && !is_comment(line) && !is_syntax(line);
                assert(is_changed_line(before@, after@, line));
            }
        }
    }
    if !has_text && !has_syntax && !has_functional {
        if trim(before) != trim(after) {
            has_functional = true;
        } else {
            has_text = true;
        }
    }
    match (has_text, has_syntax, has_functional) {
        (true, true, true) => ChangeClassification::TextSyntaxFunctional,
        (true, true, false) => ChangeClassification::TextSyntax,
        (true, false, true) => ChangeClassification::TextFunctional,
        (false, true, true) => ChangeClassification::SyntaxFunctional,
        (true, false, false) => ChangeClassification::Text,
        (false, true, false) => ChangeClassification::Syntax,
        (false, false, true) => ChangeClassification::Functional,
        (false, false, false) => ChangeClassification::Text,
    }
}

/// An added or deleted entity is always functional.
pub proof fn law_added_or_deleted_is_functional(
    before: Seq<char>,
    after: Seq<char>,
    structural: Option<bool>,
)
    requires
        before.len() == 0 || after.len() == 0,
    ensures
        classification_of(before, after, structural) == ChangeClassification::Functional,
{
}

/// A change between two texts that leaves the structure alone is text only.
pub proof fn law_cosmetic_is_text(before: Seq<char>, after: Seq<char>)
    requires
        before.len() > 0,
        after.len() > 0,
    ensures
        classification_of(before, after, Some(false)) == ChangeClassification::Text,
{
}

/// A change that adds and removes no line, and none but white space around the
/// text, is text only.
pub proof fn law_whitespace_is_text(before: Seq<char>, after: Seq<char>, structural: Option<bool>)
    requires
        before.len() > 0,
        after.len() > 0,
        forall|line: Seq<char>| !(#[trigger] is_changed_line(before, after, line)),
        trimmed(before) == trimmed(after),
    ensures
        classification_of(before, after, structural) == ChangeClassification::Text,
{
}

/// A change and its reverse are classified alike.
pub proof fn law_classification_symmetric(
    before: Seq<char>,
    after: Seq<char>,
    structural: Option<bool>,
)
    ensures
        classification_of(before, after, structural) == classification_of(
            after,
            before,
            structural,
        ),
{
    lemma_touches_reversed(before, after);
    lemma_touches_reversed(after, before);
}

proof fn lemma_touches_reversed(before: Seq<char>, after: Seq<char>)
    ensures
        touches_text(before, after) ==> touches_text(after, before),
        touches_syntax(before, after) ==> touches_syntax(after, before),
        touches_function(before, after) ==> touches_function(after, before),
{
    if touches_text(before, after) {
        let line = choose|line: Seq<char>| #[trigger]
            is_changed_line(before, after, line) && is_comment(line);
        assert(is_changed_line(after, before, line));
    }
    if touches_syntax(before, after) {
        let line = choose|line: Seq<char>| #[trigger]
            is_changed_line(before, after, line) && !is_comment(line) && is_syntax(line);
        assert(is_changed_line(after, before, line));
    }
    if touches_function(before, after) {
        let line = choose|line: Seq<char>| #[trigger]
            is_changed_line(before, after, line) && !is_comment(line) && !is_syntax(line);
        assert(is_changed_line(after, before, line));
    }
}

/// A line is a comment exactly where it starts with a slash that a slash or a
/// star follows, with a star, with three double quotes, or with a hash that no
/// opening bracket follows.
pub proof fn law_comment_line(line: &str, r: bool)
    requires
        call_ensures(is_comment_line, (line,), r),
    ensures
        r == comment_by_chars(line@),
{
    lemma_comment_by_chars(line@);
}

/// Whether the first characters of `line` open a comment.
pub open spec fn comment_by_chars(line: Seq<char>) -> bool {
    let n = line.len();
    ||| n >= 2 && line[0] == '/' && (line[1] == '/' || line[1] == '*')
    ||| n >= 1 && line[0] == '*'
    ||| n >= 3 && line[0] == '"' && line[1] == '"' && line[2] == '"'
    ||| n >= 1 && line[0] == '#' && !(n >= 2 && line[1] == '[')
}

proof fn lemma_comment_by_chars(line: Seq<char>)
    ensures
        is_comment(line) == comment_by_chars(line),
{
    reveal_strlit("//");
    reveal_strlit("/*");
    reveal_strlit("*");
    reveal_strlit("///");
    reveal_strlit("/**");
    reveal_strlit("\"\"\"");
    reveal_strlit("#");
    reveal_strlit("#[");
    lemma_prefix(line, "//"@);
    lemma_prefix(line, "/*"@);
    lemma_prefix(line, "*"@);
    lemma_prefix(line, "///"@);
    lemma_prefix(line, "/**"@);
    lemma_prefix(line, "\"\"\""@);
    lemma_prefix(line, "#"@);
    lemma_prefix(line, "#["@);
}

proof fn lemma_prefix(line: Seq<char>, prefix: Seq<char>)
    requires
        1 <= prefix.len() <= 3,
    ensures
        prefix.is_prefix_of(line) <==> {
            &&& prefix.len() <= line.len()
            &&& line[0] == prefix[0]
            &&& prefix.len() > 1 ==> line[1] == prefix[1]
            &&& prefix.len() > 2 ==> line[2] == prefix[2]
        },
{
    let front = line.subrange(0, prefix.len() as int);
    if prefix.is_prefix_of(line) {
        assert(front[0] == line[0]);
        assert(prefix.len() > 1 ==> front[1] == line[1]);
        assert(prefix.len() > 2 ==> front[2] == line[2]);
    }
    if prefix.len() <= line.len() && line[0] == prefix[0] && (prefix.len() > 1 ==> line[1]
        == prefix[1]) && (prefix.len() > 2 ==> line[2] == prefix[2]) {
        assert(front =~= prefix);
    }
}

/// The words that a declaration starts with.
pub open spec fn openings() -> Seq<Seq<char>> {
    seq![
        seq!['f', 'n', ' '],
        seq!['p', 'u', 'b', ' ', 'f', 'n', ' '],
        seq!['p', 'u', 'b', '(', 'c', 'r', 'a', 't', 'e', ')', ' ', 'f', 'n', ' '],
        seq!['d', 'e', 'f', ' '],
        seq!['c', 'l', 'a', 's', 's', ' '],
        seq!['s', 't', 'r', 'u', 'c', 't', ' '],
        seq!['e', 'n', 'u', 'm', ' '],
        seq!['t', 'r', 'a', 'i', 't', ' '],
        seq!['i', 'm', 'p', 'l', ' '],
        seq!['i', 'n', 't', 'e', 'r', 'f', 'a', 'c', 'e', ' '],
        seq!['t', 'y', 'p', 'e', ' '],
        seq!['p', 'u', 'b', ' ', 's', 't', 'r', 'u', 'c', 't', ' '],
        seq!['p', 'u', 'b', ' ', 'e', 'n', 'u', 'm', ' '],
        seq!['p', 'u', 'b', ' ', 't', 'r', 'a', 'i', 't', ' '],
        seq!['a', 's', 'y', 'n', 'c', ' ', 'f', 'n', ' '],
        seq!['p', 'u', 'b', ' ', 'a', 's', 'y', 'n', 'c', ' ', 'f', 'n', ' '],
        seq!['f', 'u', 'n', 'c', 't', 'i', 'o', 'n', ' '],
        seq!['e', 'x', 'p', 'o', 'r', 't', ' ', 'f', 'u', 'n', 'c', 't', 'i', 'o', 'n', ' '],
        seq!['e', 'x', 'p', 'o', 'r', 't', ' ', 'd', 'e', 'f', 'a', 'u', 'l', 't', ' '],
    ]
}

/// The pieces of type syntax.
pub open spec fn type_marks() -> Seq<Seq<char>> {
    seq![
        seq!['-', '>'],
        seq!['=', '>', ' '],
        seq![':', ' ', '&'],
        seq![':', ' ', 'V', 'e', 'c', '<'],
        seq![':', ' ', 'O', 'p', 't', 'i', 'o', 'n', '<'],
        seq![':', ' ', 'R', 'e', 's', 'u', 'l', 't', '<'],
    ]
}

/// A line carries syntax exactly where it starts with the words of a declaration
/// or a piece of type syntax stands somewhere in it.
pub proof fn law_syntax_line(line: &str, r: bool)
    requires
        call_ensures(is_syntax_line, (line,), r),
    ensures
        r <==> syntax_by_chars(line@),
{
    lemma_syntax_by_chars(line@);
}

/// Whether the words of a declaration open `line`, or a piece of type syntax
/// stands in it.
pub open spec fn syntax_by_chars(line: Seq<char>) -> bool {
    ||| exists|k: int, rest: Seq<char>|
        0 <= k < openings().len() && line == #[trigger] (openings()[k] + rest)
    ||| exists|k: int, front: Seq<char>, back: Seq<char>|
        0 <= k < type_marks().len() && line == #[trigger] (front + type_marks()[k] + back)
}

proof fn lemma_opening(line: Seq<char>, k: int)
    requires
        0 <= k < openings().len(),
    ensures
        openings()[k].is_prefix_of(line) <==> exists|rest: Seq<char>|
            line == #[trigger] (openings()[k] + rest),
{
    let word = openings()[k];
    if word.is_prefix_of(line) {
        assert(line =~= word + line.skip(word.len() as int));
    }
    if exists|rest: Seq<char>| line == #[trigger] (word + rest) {
        let rest = choose|rest: Seq<char>| line == #[trigger] (word + rest);
        assert((word + rest).subrange(0, word.len() as int) =~= word);
    }
}

proof fn lemma_words()
    ensures
        "fn "@ == openings()[0],
        "pub fn "@ == openings()[1],
        "pub(crate) fn "@ == openings()[2],
        "def "@ == openings()[3],
        "class "@ == openings()[4],
        "struct "@ == openings()[5],
        "enum "@ == openings()[6],
        "trait "@ == openings()[7],
        "impl "@ == openings()[8],
        "interface "@ == openings()[9],
        "type "@ == openings()[10],
        "pub struct "@ == openings()[11],
        "pub enum "@ == openings()[12],
        "pub trait "@ == openings()[13],
        "async fn "@ == openings()[14],
        "pub async fn "@ == openings()[15],
        "function "@ == openings()[16],
        "export function "@ == openings()[17],
        "export default "@ == openings()[18],
        "->"@ == type_marks()[0],
        "=> "@ == type_marks()[1],
        ": &"@ == type_marks()[2],
        ": Vec<"@ == type_marks()[3],
        ": Option<"@ == type_marks()[4],
        ": Result<"@ == type_marks()[5],
{
    reveal_strlit("fn ");
    assert("fn "@ =~= openings()[0]);
    reveal_strlit("pub fn ");
    assert("pub fn "@ =~= openings()[1]);
    reveal_strlit("pub(crate) fn ");
    assert("pub(crate) fn "@ =~= openings()[2]);
    reveal_strlit("def ");
    assert("def "@ =~= openings()[3]);
    reveal_strlit("class ");
    assert("class "@ =~= openings()[4]);
    reveal_strlit("struct ");
    assert("struct "@ =~= openings()[5]);
    reveal_strlit("enum ");
    assert("enum "@ =~= openings()[6]);
    reveal_strlit("trait ");
    assert("trait "@ =~= openings()[7]);
    reveal_strlit("impl ");
    assert("impl "@ =~= openings()[8]);
    reveal_strlit("interface ");
    assert("interface "@ =~= openings()[9]);
    reveal_strlit("type ");
    assert("type "@ =~= openings()[10]);
    reveal_strlit("pub struct ");
    assert("pub struct "@ =~= openings()[11]);
    reveal_strlit("pub enum ");
    assert("pub enum "@ =~= openings()[12]);
    reveal_strlit("pub trait ");
    assert("pub trait "@ =~= openings()[13]);
    reveal_strlit("async fn ");
    assert("async fn "@ =~= openings()[14]);
    reveal_strlit("pub async fn ");
    assert("pub async fn "@ =~= openings()[15]);
    reveal_strlit("function ");
    assert("function "@ =~= openings()[16]);
    reveal_strlit("export function ");
    assert("export function "@ =~= openings()[17]);
    reveal_strlit("export default ");
    assert("export default "@ =~= openings()[18]);
    reveal_strlit("->");
    assert("->"@ =~= type_marks()[0]);
    reveal_strlit("=> ");
    assert("=> "@ =~= type_marks()[1]);
    reveal_strlit(": &");
    assert(": &"@ =~= type_marks()[2]);
    reveal_strlit(": Vec<");
    assert(": Vec<"@ =~= type_marks()[3]);
    reveal_strlit(": Option<");
    assert(": Option<"@ =~= type_marks()[4]);
    reveal_strlit(": Result<");
    assert(": Result<"@ =~= type_marks()[5]);
}

proof fn lemma_syntax_by_chars(line: Seq<char>)
    ensures
        is_syntax(line) == syntax_by_chars(line),
{
    lemma_words();
    assert forall|k: int| 0 <= k < openings().len() implies #[trigger] openings()[k].is_prefix_of(
        line,
    ) == exists|rest: Seq<char>| line == #[trigger] (openings()[k] + rest) by {
        lemma_opening(line, k);
    }
    assert forall|k: int| 0 <= k < type_marks().len() implies holds(line, #[trigger] type_marks()[k])
        == exists|front: Seq<char>, back: Seq<char>|
        line == #[trigger] (front + type_marks()[k] + back) by {
        law_holds(line, type_marks()[k]);
    }
    assert(is_syntax(line) <==> (exists|k: int|
        0 <= k < openings().len() && #[trigger] openings()[k].is_prefix_of(line)) || (exists|k: int|
        0 <= k < type_marks().len() && holds(line, #[trigger] type_marks()[k])));
    if exists|k: int| 0 <= k < openings().len() && #[trigger] openings()[k].is_prefix_of(line) {
        let k = choose|k: int|
            0 <= k < openings().len() && #[trigger] openings()[k].is_prefix_of(line);
        let rest = choose|rest: Seq<char>| line == #[trigger] (openings()[k] + rest);
        assert(line == openings()[k] + rest);
    }
    if exists|k: int| 0 <= k < type_marks().len() && holds(line, #[trigger] type_marks()[k]) {
        let k = choose|k: int| 0 <= k < type_marks().len() && holds(line, #[trigger] type_marks()[k]);
        let (front, back) = choose|front: Seq<char>, back: Seq<char>|
            line == #[trigger] (front + type_marks()[k] + back);
        assert(line == front + type_marks()[k] + back);
    }
    if syntax_by_chars(line) {
        if exists|k: int, rest: Seq<char>|
            0 <= k < openings().len() && line == #[trigger] (openings()[k] + rest) {
            let (k, rest) = choose|k: int, rest: Seq<char>|
                0 <= k < openings().len() && line == #[trigger] (openings()[k] + rest);
            assert(openings()[k].is_prefix_of(line));
        } else {
            let (k, front, back) = choose|k: int, front: Seq<char>, back: Seq<char>|
                0 <= k < type_marks().len() && line == #[trigger] (front + type_marks()[k] + back);
            assert(holds(line, type_marks()[k]));
        }
    }
}

/// Whether `line` is one of the lines of exactly one of two texts, white space
/// around it aside.
pub open spec fn is_one_sided(before: Seq<char>, after: Seq<char>, line: Seq<char>) -> bool {
    &&& line.len() > 0
    &&& (exists|i: int| 0 <= i < lines_of(before).len() && #[trigger] trimmed(lines_of(before)[i]) == line)
        != (exists|j: int|
        0 <= j < lines_of(after).len() && #[trigger] trimmed(lines_of(after)[j]) == line)
}

/// What a classification says of the three dimensions.
pub open spec fn dimensions(class: ChangeClassification) -> (bool, bool, bool) {
    match class {
        ChangeClassification::Text => (true, false, false),
        ChangeClassification::Syntax => (false, true, false),
        ChangeClassification::Functional => (false, false, true),
        ChangeClassification::TextSyntax => (true, true, false),
        ChangeClassification::TextFunctional => (true, false, true),
        ChangeClassification::SyntaxFunctional => (false, true, true),
        ChangeClassification::TextSyntaxFunctional => (true, true, true),
    }
}

/// A change of an entity that was there before and is there after, and that is
/// not known to be cosmetic, has each dimension exactly where a line of that kind
/// stands on one side only. Where no line does, it is functional if the texts
/// differ beyond the white space around them, and text otherwise.
pub proof fn law_classification_dimensions(
    change: SemanticChange,
    before: Seq<char>,
    after: Seq<char>,
    r: ChangeClassification,
)
    requires
        call_ensures(classify_change, (&change,), r),
        change.before_content matches Some(text) && text@ == before,
        change.after_content matches Some(text) && text@ == after,
        before.len() > 0,
        after.len() > 0,
        change.structural_change != Some(false),
    ensures
        (exists|line: Seq<char>| #[trigger] is_one_sided(before, after, line)) ==> {
            &&& dimensions(r).0 <==> exists|line: Seq<char>| #[trigger]
                is_one_sided(before, after, line) && comment_by_chars(line)
            &&& dimensions(r).1 <==> exists|line: Seq<char>| #[trigger]
                is_one_sided(before, after, line) && !comment_by_chars(line) && syntax_by_chars(line)
            &&& dimensions(r).2 <==> exists|line: Seq<char>| #[trigger]
                is_one_sided(before, after, line) && !comment_by_chars(line) && !syntax_by_chars(
                    line,
                )
        },
        !(exists|line: Seq<char>| #[trigger] is_one_sided(before, after, line)) ==> dimensions(r)
            == (trimmed(before) == trimmed(after), false, trimmed(before) != trimmed(after)),
{
    assert forall|line: Seq<char>| #[trigger] is_one_sided(before, after, line) == is_changed_line(
        before,
        after,
        line,
    ) && comment_by_chars(line) == is_comment(line) && syntax_by_chars(line) == is_syntax(line) by {
        lemma_comment_by_chars(line);
        lemma_syntax_by_chars(line);
    }
    assert forall|line: Seq<char>| #[trigger] is_changed_line(before, after, line) implies
        is_one_sided(before, after, line) by {}
}

/// A change of an entity that is missing on one side is functional, whatever
/// else is known of it. One that is there on both sides and leaves the structure
/// alone is text.
pub proof fn law_classification_shortcuts(change: SemanticChange, r: ChangeClassification)
    requires
        call_ensures(classify_change, (&change,), r),
    ensures
        change.before_content is None || change.before_content->0@.len() == 0 ==> dimensions(r) == (
            false,
            false,
            true,
        ),
        change.after_content is None || change.after_content->0@.len() == 0 ==> dimensions(r) == (
            false,
            false,
            true,
        ),
        (change.before_content matches Some(b) && change.after_content matches Some(a) && b@.len()
            > 0 && a@.len() > 0 && change.structural_change == Some(false)) ==> dimensions(r) == (
            true,
            false,
            false,
        ),
{
}

} // verus!

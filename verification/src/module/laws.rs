//! What a module's commands and their complaints are told as.

use super::plans::{answer_in, answers, PlanLine};
use super::step::{escaped, plain_char, plain_word, quoted, step_views, StepSpec};
use super::{ending_text, last_lines, said, tail_of};
use crate::action::model::Mode;
use crate::text::{lines_of, signed_text, strung, trim_of};
use vstd::prelude::*;

verus! {

/// What a program said are its lines without the white space around them, but for those that say
/// nothing. The lines of two texts follow each other.
pub proof fn what_was_said_are_the_lines_that_say_something(
    a: Seq<Seq<char>>,
    b: Seq<Seq<char>>,
    line: Seq<char>,
)
    ensures
        said(a + b) == said(a) + said(b),
        trim_of(line).len() == 0 ==> said(seq![line]) == Seq::<Seq<char>>::empty(),
        trim_of(line).len() > 0 ==> said(seq![line]) == seq![trim_of(line)],
    decreases b.len(),
{
    if b.len() == 0 {
        assert(a + b =~= a);
        assert(said(a) + said(b) =~= said(a));
    } else {
        what_was_said_are_the_lines_that_say_something(a, b.drop_last(), line);
        assert((a + b).drop_last() =~= a + b.drop_last());
        assert((a + b).last() == b.last());
        assert(said(a + b) =~= said(a) + said(b));
    }
    reveal_with_fuel(said, 2);
    assert(seq![line].drop_last() =~= Seq::empty());
    assert(seq![line].last() == line);
}

/// A complaint quotes the last three lines that say something, in their order and with a slash
/// between, or all where there are fewer. What is longer than 500 characters loses its beginning:
/// an ellipsis and the last 499 are left.
pub proof fn a_complaint_quotes_the_last_lines(text: Seq<char>)
    ensures
        ({
            let all = said(lines_of(text));
            let last = if all.len() > 3 {
                all.subrange(all.len() - 3, all.len() as int)
            } else {
                all
            };
            let whole = strung(last, " / "@);
            &&& whole.len() <= 500 ==> tail_of(text) == whole
            &&& whole.len() > 500 ==> {
                &&& tail_of(text).len() == 500
                &&& tail_of(text)[0] == '…'
                &&& tail_of(text).subrange(1, 500) == whole.subrange(
                    whole.len() - 499,
                    whole.len() as int,
                )
            }
        }),
{
    let all = said(lines_of(text));
    if all.len() > 3 {
        assert(last_lines(all) =~= all.subrange(all.len() - 3, all.len() as int));
    }
    let whole = strung(last_lines(all), " / "@);
    if whole.len() > 500 {
        assert(tail_of(text).subrange(1, 500) =~= whole.subrange(
            whole.len() - 499,
            whole.len() as int,
        ));
    }
}

/// How a program ended is told by its code, or that a signal killed it where it has none.
pub proof fn an_ending_is_told_by_its_code(code: i32)
    ensures
        ending_text(Some(code)) == "exited with "@ + signed_text(code as int),
        ending_text(None) == "was killed by a signal"@,
{
}

/// Whether a character means something to a shell.
pub open spec fn means_something_to_a_shell(c: char) -> bool {
    ||| c == ' '
    ||| c == '\t'
    ||| c == '\n'
    ||| c == '\''
    ||| c == '"'
    ||| c == '\\'
    ||| c == '$'
    ||| c == '`'
    ||| c == '*'
    ||| c == '?'
    ||| c == '['
    ||| c == ']'
    ||| c == '{'
    ||| c == '}'
    ||| c == '('
    ||| c == ')'
    ||| c == '<'
    ||| c == '>'
    ||| c == '|'
    ||| c == '&'
    ||| c == ';'
    ||| c == '#'
    ||| c == '~'
    ||| c == '!'
    ||| c == '^'
}

/// A word that would mean something else to a shell is shown in quotes: an empty one, and one with
/// a character that a shell reads in its own way. A word of letters, digits and the few signs of
/// paths and flags is shown as it is.
pub proof fn a_word_is_quoted_where_a_shell_would_read_it(word: Seq<char>)
    ensures
        word.len() == 0 ==> quoted(word) == seq!['\'', '\''],
        (exists|i: int| 0 <= i < word.len() && means_something_to_a_shell(#[trigger] word[i])) ==> {
            &&& quoted(word).len() >= word.len() + 2
            &&& quoted(word)[0] == '\''
            &&& quoted(word).last() == '\''
        },
        word.len() > 0 && (forall|i: int|
            0 <= i < word.len() ==> {
                let c = #[trigger] word[i];
                ||| 'a' <= c <= 'z'
                ||| 'A' <= c <= 'Z'
                ||| '0' <= c <= '9'
                ||| c == '_'
                ||| c == '.'
                ||| c == '/'
                ||| c == ':'
                ||| c == '='
                ||| c == '@'
                ||| c == '%'
                ||| c == '+'
                ||| c == ','
                ||| c == '-'
            }) ==> quoted(word) == word,
{
    escaping_keeps_every_character(word);
    if word.len() == 0 {
        assert(quoted(word) =~= seq!['\'', '\'']);
    }
    if exists|i: int| 0 <= i < word.len() && means_something_to_a_shell(#[trigger] word[i]) {
        let i = choose|i: int| 0 <= i < word.len() && means_something_to_a_shell(#[trigger] word[i]);
        assert(!plain_char(word[i]));
        assert(!plain_word(word));
    }
}

proof fn escaping_keeps_every_character(word: Seq<char>)
    ensures
        escaped(word).len() >= word.len(),
    decreases word.len(),
{
    if word.len() > 0 {
        escaping_keeps_every_character(word.drop_last());
    }
}

/// A quote inside a quoted word closes the quotes, stands by itself and opens them again, and
/// every other character stands as it is.
pub proof fn a_quote_is_written_outside_the_quotes(a: Seq<char>, b: Seq<char>, c: char)
    ensures
        escaped(a + b) == escaped(a) + escaped(b),
        c == '\'' ==> escaped(seq![c]) == seq!['\'', '\\', '\'', '\''],
        c != '\'' ==> escaped(seq![c]) == seq![c],
    decreases b.len(),
{
    if b.len() == 0 {
        assert(a + b =~= a);
        assert(escaped(a) + escaped(b) =~= escaped(a));
    } else {
        a_quote_is_written_outside_the_quotes(a, b.drop_last(), c);
        assert((a + b).drop_last() =~= a + b.drop_last());
        assert((a + b).last() == b.last());
        assert(escaped(a + b) =~= escaped(a) + escaped(b));
    }
    reveal_with_fuel(escaped, 2);
    assert(seq![c].drop_last() =~= Seq::empty());
    assert(seq![c].last() == c);
    assert(Seq::<char>::empty() + seq!['\'', '\\', '\'', '\''] =~= seq!['\'', '\\', '\'', '\'']);
    assert(Seq::<char>::empty().push(c) =~= seq![c]);
}

/// What was planned for a request is the first plan that was made for this item, this action, these
/// options and this mode; nothing was planned where there is none.
pub proof fn a_plan_is_found_by_what_it_is_for(
    lines: Seq<PlanLine>,
    item: Seq<char>,
    action: Seq<char>,
    options: Seq<Seq<char>>,
    mode: Mode,
)
    ensures
        (forall|i: int| 0 <= i < lines.len() ==> !answers(#[trigger] lines[i], item, action, options, mode))
            ==> answer_in(lines, item, action, options, mode) == Seq::<StepSpec>::empty(),
        forall|m: int|
            0 <= m < lines.len() && answers(#[trigger] lines[m], item, action, options, mode) && (
            forall|i: int|
                0 <= i < m ==> !answers(#[trigger] lines[i], item, action, options, mode))
                ==> answer_in(lines, item, action, options, mode) == step_views(lines[m].steps@),
    decreases lines.len(),
{
    if lines.len() > 0 && !answers(lines[0], item, action, options, mode) {
        let rest = lines.drop_first();
        a_plan_is_found_by_what_it_is_for(rest, item, action, options, mode);
        assert forall|i: int| 0 <= i < rest.len() implies #[trigger] rest[i] == lines[i + 1] by {}
        assert forall|m: int|
            0 <= m < lines.len() && answers(#[trigger] lines[m], item, action, options, mode) && (
            forall|i: int|
                0 <= i < m ==> !answers(#[trigger] lines[i], item, action, options, mode)) implies answer_in(
            lines,
            item,
            action,
            options,
            mode,
        ) == step_views(lines[m].steps@) by {
            assert(rest[m - 1] == lines[m]);
            assert forall|i: int| 0 <= i < m - 1 implies !answers(
                #[trigger] rest[i],
                item,
                action,
                options,
                mode,
            ) by {
                assert(rest[i] == lines[i + 1]);
            }
        }
    }
}

} // verus!

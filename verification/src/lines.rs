//! Spreading tokens over lines of bounded length.
//!
//! Tokens are placed in order. A token joins the current line, after one
//! space, as long as the line stays within [`LINE_LIMIT`]; the first token
//! that does not fit opens the next line.

use vstd::prelude::*;

verus! {

/// The most characters a line may have, its line feed included.
pub const LINE_LIMIT: usize = 70;

/// The tokens of a line, with one space between neighbours.
pub open spec fn joined(tokens: Seq<Seq<char>>) -> Seq<char>
    decreases tokens.len(),
{
    if tokens.len() == 0 {
        Seq::empty()
    } else if tokens.len() == 1 {
        tokens[0]
    } else {
        joined(tokens.drop_last()) + seq![' '] + tokens.last()
    }
}

/// Whether `token` may follow the tokens of `line` on the same line: the line
/// with the token, the space before it and the separator after it stays within
/// the limit.
pub open spec fn fits(line: Seq<Seq<char>>, token: Seq<char>) -> bool {
    joined(line).len() + 1 + token.len() + 1 <= LINE_LIMIT
}

/// The lines over which `tokens` are spread: each token goes on the current
/// line while it fits, and opens a new line when it does not.
pub open spec fn split_lines(tokens: Seq<Seq<char>>) -> Seq<Seq<Seq<char>>>
    decreases tokens.len(),
{
    if tokens.len() == 0 {
        Seq::empty()
    } else {
        let lines = split_lines(tokens.drop_last());
        let token = tokens.last();
        if lines.len() > 0 && fits(lines.last(), token) {
            lines.update(lines.len() - 1, lines.last().push(token))
        } else {
            lines.push(seq![token])
        }
    }
}

/// The text of `lines`, each line ended by a line feed.
pub open spec fn rendered(lines: Seq<Seq<Seq<char>>>) -> Seq<char>
    decreases lines.len(),
{
    if lines.len() == 0 {
        Seq::empty()
    } else {
        rendered(lines.drop_last()) + joined(lines.last()) + seq!['\n']
    }
}

/// The text of `lines` with the last line still open, that is, without its
/// line feed.
pub open spec fn pending(lines: Seq<Seq<Seq<char>>>) -> Seq<char> {
    if lines.len() == 0 {
        Seq::empty()
    } else {
        rendered(lines.drop_last()) + joined(lines.last())
    }
}

/// Whether `c` is one of the two characters that stand between tokens.
pub open spec fn is_separator(c: char) -> bool {
    c == ' ' || c == '\n'
}

/// Whether `token` has at least one character and no separator in it.
pub open spec fn is_word(token: Seq<char>) -> bool {
    &&& token.len() > 0
    &&& forall|j: int| 0 <= j < token.len() ==> !is_separator(#[trigger] token[j])
}

/// Whether `text` is `tokens` written one after another, each followed by
/// exactly one separator.
pub open spec fn spells(text: Seq<char>, tokens: Seq<Seq<char>>) -> bool
    decreases tokens.len(),
{
    if tokens.len() == 0 {
        text.len() == 0
    } else {
        let token = tokens.last();
        let end = text.len() - 1;
        &&& token.len() <= end
        &&& is_separator(text[end])
        &&& text.subrange(end - token.len(), end) == token
        &&& spells(text.subrange(0, end - token.len()), tokens.drop_last())
    }
}

/// Whether the `LINE_LIMIT` characters of `text` that begin at `start` hold
/// a line feed.
pub open spec fn has_break(text: Seq<char>, start: int) -> bool {
    exists|at: int| start <= at < start + LINE_LIMIT && #[trigger] text[at] == '\n'
}

/// Whether `text` is made of lines within the limit: it ends with a line
/// feed unless it is empty, and every `LINE_LIMIT` characters in a row hold
/// a line feed, so that no line, its line feed included, is longer than the
/// limit.
pub open spec fn is_wrapped(text: Seq<char>) -> bool {
    &&& text.len() > 0 ==> text.last() == '\n'
    &&& forall|start: int|
        0 <= start && start + LINE_LIMIT <= text.len() ==> #[trigger] has_break(text, start)
}

/// Whether `lines` spread their tokens as the rule asks: no line is empty,
/// every line with its line feed is within the limit, and every line but the
/// last is full, in that the first token of the next line would not have
/// fitted on it.
pub open spec fn is_full_split(lines: Seq<Seq<Seq<char>>>) -> bool {
    &&& forall|i: int| 0 <= i < lines.len() ==> (#[trigger] lines[i]).len() > 0
    &&& forall|i: int| 0 <= i < lines.len() ==> joined(#[trigger] lines[i]).len() + 1 <= LINE_LIMIT
    &&& forall|i: int| 0 <= i && i + 1 < lines.len() ==> !fits(#[trigger] lines[i], lines[i + 1][0])
}

/// There are lines exactly when there are tokens, and no line is empty.
pub proof fn lemma_lines_nonempty(tokens: Seq<Seq<char>>)
    ensures
        split_lines(tokens).len() == 0 <==> tokens.len() == 0,
        forall|i: int|
            0 <= i < split_lines(tokens).len() ==> (#[trigger] split_lines(tokens)[i]).len() > 0,
    decreases tokens.len(),
{
    if tokens.len() > 0 {
        lemma_lines_nonempty(tokens.drop_last());
    }
}

/// What placing one more token does to the open text: the first token stands
/// alone, a token that fits follows a space, and any other token follows a
/// line feed.
pub proof fn lemma_place(placed: Seq<Seq<char>>, token: Seq<char>)
    ensures
        ({
            let lines = split_lines(placed);
            let next = split_lines(placed.push(token));
            &&& next.len() > 0
            &&& if lines.len() == 0 {
                &&& pending(next) == token
                &&& joined(next.last()) == token
            } else if fits(lines.last(), token) {
                &&& pending(next) == pending(lines) + seq![' '] + token
                &&& joined(next.last()) == joined(lines.last()) + seq![' '] + token
            } else {
                &&& pending(next) == pending(lines) + seq!['\n'] + token
                &&& joined(next.last()) == token
            }
        }),
{
    let lines = split_lines(placed);
    let next = split_lines(placed.push(token));
    assert(placed.push(token).drop_last() =~= placed);
    lemma_lines_nonempty(placed);
    if lines.len() == 0 {
        assert(next =~= seq![seq![token]]);
        assert(next.drop_last() =~= Seq::<Seq<Seq<char>>>::empty());
        assert(pending(next) =~= token);
    } else if fits(lines.last(), token) {
        let last = lines.last();
        assert(next.drop_last() =~= lines.drop_last());
        assert(last.push(token).drop_last() =~= last);
        assert(pending(next) =~= pending(lines) + seq![' '] + token);
    } else {
        assert(next.drop_last() =~= lines);
        assert(seq![token].len() == 1);
        assert(pending(next) =~= pending(lines) + seq!['\n'] + token);
    }
}

/// Read line after line, the lines hold the tokens in their order, none lost
/// and none added.
pub proof fn lemma_lines_keep_tokens(tokens: Seq<Seq<char>>)
    ensures
        split_lines(tokens).flatten() == tokens,
    decreases tokens.len(),
{
    if tokens.len() > 0 {
        let before = tokens.drop_last();
        let lines = split_lines(before);
        let token = tokens.last();
        lemma_lines_keep_tokens(before);
        assert(tokens =~= before.push(token));
        if lines.len() > 0 && fits(lines.last(), token) {
            lemma_flatten_grown(lines, token);
        } else {
            lines.lemma_flatten_push(seq![token]);
        }
    }
}

/// One more token on the last line is one more token at the end of all the
/// tokens.
proof fn lemma_flatten_grown(lines: Seq<Seq<Seq<char>>>, token: Seq<char>)
    requires
        lines.len() > 0,
    ensures
        lines.update(lines.len() - 1, lines.last().push(token)).flatten() == lines.flatten().push(
            token,
        ),
{
    let head = lines.drop_last();
    assert(lines =~= head.push(lines.last()));
    assert(lines.update(lines.len() - 1, lines.last().push(token)) =~= head.push(
        lines.last().push(token),
    ));
    head.lemma_flatten_push(lines.last());
    head.lemma_flatten_push(lines.last().push(token));
    assert(head.flatten() + lines.last().push(token) =~= (head.flatten() + lines.last()).push(
        token,
    ));
}

/// What holds of every token holds of every token on every line.
pub proof fn lemma_lines_hold_only_tokens(tokens: Seq<Seq<char>>, holds: spec_fn(Seq<char>) -> bool)
    requires
        forall|k: int| 0 <= k < tokens.len() ==> holds(#[trigger] tokens[k]),
    ensures
        forall|i: int, j: int|
            0 <= i < split_lines(tokens).len() && 0 <= j < split_lines(tokens)[i].len() ==> holds(
                #[trigger] split_lines(tokens)[i][j],
            ),
    decreases tokens.len(),
{
    if tokens.len() > 0 {
        let before = split_lines(tokens.drop_last());
        let after = split_lines(tokens);
        lemma_lines_hold_only_tokens(tokens.drop_last(), holds);
        assert(holds(tokens[tokens.len() - 1]));
        assert forall|i: int, j: int| 0 <= i < after.len() && 0 <= j < after[i].len() implies holds(
            #[trigger] after[i][j],
        ) by {
            if i < before.len() && j < before[i].len() {
                assert(after[i][j] == before[i][j]);
            } else {
                assert(after[i][j] == tokens.last());
            }
        }
    }
}

/// Where no token is too long to stand on a line of its own, the lines are
/// spread as the rule asks: none is empty, every line with its line feed
/// stays within the limit, and a line ends only where the next token would
/// not have fitted.
pub proof fn lemma_lines_are_a_full_split(tokens: Seq<Seq<char>>)
    requires
        forall|k: int| 0 <= k < tokens.len() ==> (#[trigger] tokens[k]).len() + 1 <= LINE_LIMIT,
    ensures
        is_full_split(split_lines(tokens)),
    decreases tokens.len(),
{
    if tokens.len() > 0 {
        let before = tokens.drop_last();
        lemma_lines_are_a_full_split(before);
        lemma_lines_nonempty(before);
        lemma_place(before, tokens.last());
        assert(tokens =~= before.push(tokens.last()));
    }
}

/// The rule leaves no choice: lines that hold the tokens in their order and
/// are spread as the rule asks are the lines of `split_lines`.
pub proof fn lemma_full_split_is_unique(tokens: Seq<Seq<char>>, lines: Seq<Seq<Seq<char>>>)
    requires
        lines.flatten() == tokens,
        is_full_split(lines),
    ensures
        lines == split_lines(tokens),
    decreases tokens.len(),
{
    if lines.len() == 0 {
        assert(lines.flatten() =~= Seq::<Seq<char>>::empty());
        assert(lines =~= split_lines(tokens));
    } else {
        let last = lines.last();
        let token = last.last();
        let head = lines.drop_last();
        assert(lines =~= head.push(last));
        head.lemma_flatten_push(last);
        assert(tokens.last() == token);
        if last.len() == 1 {
            assert(last =~= seq![token]);
            assert(tokens.drop_last() =~= head.flatten());
            assert(is_full_split(head));
            lemma_full_split_is_unique(tokens.drop_last(), head);
            if head.len() > 0 {
                assert(!fits(lines[head.len() - 1], lines[head.len() - 1 + 1][0]));
            }
        } else {
            let shorter = lines.update(lines.len() - 1, last.drop_last());
            assert(last =~= last.drop_last().push(token));
            lemma_flatten_grown(shorter, token);
            assert(shorter.update(shorter.len() - 1, shorter.last().push(token)) =~= lines);
            assert(tokens.drop_last() =~= shorter.flatten());
            assert(is_full_split(shorter)) by {
                assert(joined(last) == joined(last.drop_last()) + seq![' '] + token);
                assert forall|i: int| 0 <= i && i + 1 < shorter.len() implies !fits(
                    #[trigger] shorter[i],
                    shorter[i + 1][0],
                ) by {
                    assert(!fits(lines[i], lines[i + 1][0]));
                }
                assert forall|i: int| 0 <= i < shorter.len() implies joined(
                    #[trigger] shorter[i],
                ).len() + 1 <= LINE_LIMIT by {
                    assert(joined(lines[i]).len() + 1 <= LINE_LIMIT);
                }
                assert forall|i: int| 0 <= i < shorter.len() implies (#[trigger] shorter[i]).len()
                    > 0 by {
                    assert(lines[i].len() > 0);
                }
            }
            lemma_full_split_is_unique(tokens.drop_last(), shorter);
            assert(joined(last).len() + 1 <= LINE_LIMIT);
            assert(fits(shorter.last(), token));
        }
    }
}

/// Two texts made of lines within the limit, one after the other, are a text
/// made of lines within the limit.
pub proof fn lemma_wrapped_concat(text: Seq<char>, more: Seq<char>)
    requires
        is_wrapped(text),
        is_wrapped(more),
    ensures
        is_wrapped(text + more),
{
    let both = text + more;
    assert forall|start: int|
        0 <= start && start + LINE_LIMIT <= both.len() implies #[trigger] has_break(
        both,
        start,
    ) by {
        if start + LINE_LIMIT <= text.len() {
            assert(has_break(text, start));
            let at = choose|at: int|
                start <= at < start + LINE_LIMIT && #[trigger] text[at] == '\n';
            assert(both[at] == '\n');
        } else if start >= text.len() {
            assert(has_break(more, start - text.len()));
            let at = choose|at: int|
                start - text.len() <= at < start - text.len() + LINE_LIMIT && #[trigger] more[at]
                    == '\n';
            assert(both[at + text.len()] == '\n');
        } else {
            assert(both[text.len() - 1] == '\n');
        }
    }
}

/// Lines that are each within the limit, line feed included, render to a
/// text made of lines within the limit.
pub proof fn lemma_rendered_is_wrapped(lines: Seq<Seq<Seq<char>>>)
    requires
        forall|i: int| 0 <= i < lines.len() ==> joined(#[trigger] lines[i]).len() + 1 <= LINE_LIMIT,
    ensures
        is_wrapped(rendered(lines)),
    decreases lines.len(),
{
    if lines.len() > 0 {
        let line = joined(lines.last()) + seq!['\n'];
        lemma_rendered_is_wrapped(lines.drop_last());
        assert(joined(lines[lines.len() - 1]).len() + 1 <= LINE_LIMIT);
        assert(is_wrapped(line)) by {
            assert forall|start: int|
                0 <= start && start + LINE_LIMIT <= line.len() implies #[trigger] has_break(
                line,
                start,
            ) by {
                assert(line[line.len() - 1] == '\n');
            }
        }
        lemma_wrapped_concat(rendered(lines.drop_last()), line);
        assert(rendered(lines) =~= rendered(lines.drop_last()) + line);
    }
}

/// A line of words neither begins nor ends with a space, and holds no line
/// feed.
pub proof fn lemma_joined_is_trim(line: Seq<Seq<char>>)
    requires
        line.len() > 0,
        forall|i: int| 0 <= i < line.len() ==> is_word(#[trigger] line[i]),
    ensures
        joined(line).len() > 0,
        joined(line).first() != ' ',
        joined(line).last() != ' ',
        forall|k: int| 0 <= k < joined(line).len() ==> #[trigger] joined(line)[k] != '\n',
    decreases line.len(),
{
    assert(is_word(line[0]));
    assert(is_word(line.last()));
    if line.len() > 1 {
        lemma_joined_is_trim(line.drop_last());
    }
}

/// A spelling followed by one more token and a separator spells the tokens
/// with that token added.
pub proof fn lemma_spells_push(
    text: Seq<char>,
    tokens: Seq<Seq<char>>,
    token: Seq<char>,
    stop: char,
)
    requires
        spells(text, tokens),
        is_separator(stop),
    ensures
        spells(text + token + seq![stop], tokens.push(token)),
{
    let longer = text + token + seq![stop];
    let end = longer.len() - 1;
    assert(tokens.push(token).drop_last() =~= tokens);
    assert(longer.subrange(end - token.len(), end) =~= token);
    assert(longer.subrange(0, end - token.len()) =~= text);
}

/// Two spellings one after the other spell the two runs of tokens one after
/// the other.
pub proof fn lemma_spells_concat(
    text: Seq<char>,
    tokens: Seq<Seq<char>>,
    more_text: Seq<char>,
    more_tokens: Seq<Seq<char>>,
)
    requires
        spells(text, tokens),
        spells(more_text, more_tokens),
    ensures
        spells(text + more_text, tokens + more_tokens),
    decreases more_tokens.len(),
{
    if more_tokens.len() == 0 {
        assert(text + more_text =~= text);
        assert(tokens + more_tokens =~= tokens);
    } else {
        let token = more_tokens.last();
        let end = more_text.len() - 1;
        let head = more_text.subrange(0, end - token.len());
        lemma_spells_concat(text, tokens, head, more_tokens.drop_last());
        lemma_spells_push(text + head, tokens + more_tokens.drop_last(), token, more_text[end]);
        assert(text + head + token + seq![more_text[end]] =~= text + more_text);
        assert((tokens + more_tokens.drop_last()).push(token) =~= tokens + more_tokens);
    }
}

/// The open text of the lines of some tokens, closed by any separator, spells
/// those tokens.
proof fn lemma_pending_spells(tokens: Seq<Seq<char>>, stop: char)
    requires
        tokens.len() > 0,
        is_separator(stop),
    ensures
        spells(pending(split_lines(tokens)) + seq![stop], tokens),
    decreases tokens.len(),
{
    let before = tokens.drop_last();
    let token = tokens.last();
    let open = pending(split_lines(before));
    assert(tokens =~= before.push(token));
    lemma_place(before, token);
    lemma_lines_nonempty(before);
    if before.len() == 0 {
        lemma_spells_push(Seq::empty(), before, token, stop);
        assert(Seq::<char>::empty() + token + seq![stop] =~= token + seq![stop]);
    } else if fits(split_lines(before).last(), token) {
        lemma_pending_spells(before, ' ');
        lemma_spells_push(open + seq![' '], before, token, stop);
    } else {
        lemma_pending_spells(before, '\n');
        lemma_spells_push(open + seq!['\n'], before, token, stop);
    }
}

/// The rendered lines of some tokens spell those tokens: line splitting puts
/// exactly one separator after every token and changes nothing else.
pub proof fn lemma_rendered_spells(tokens: Seq<Seq<char>>)
    ensures
        spells(rendered(split_lines(tokens)), tokens),
{
    lemma_lines_nonempty(tokens);
    if tokens.len() > 0 {
        lemma_pending_spells(tokens, '\n');
    }
}

/// In two spellings of one text the last token of one is no shorter than the
/// last word of the other: a longer word would hold the separator that stands
/// before the token.
proof fn lemma_last_word_is_no_longer(text: Seq<char>, a: Seq<Seq<char>>, b: Seq<Seq<char>>)
    requires
        a.len() > 0,
        b.len() > 0,
        spells(text, a),
        spells(text, b),
        is_word(b.last()),
    ensures
        b.last().len() <= a.last().len(),
{
    if a.last().len() < b.last().len() {
        let end = text.len() - 1;
        let head = text.subrange(0, end - a.last().len());
        let word = b.last();
        let at = end - a.last().len() - 1;
        reveal_with_fuel(spells, 2);
        assert(head.len() > 0);
        assert(spells(head, a.drop_last()));
        assert(a.drop_last().len() > 0);
        assert(is_separator(head[head.len() - 1]));
        assert(head[head.len() - 1] == text[at]);
        assert(text.subrange(end - word.len(), end)[at - (end - word.len())] == text[at]);
        assert(!is_separator(word[at - (end - word.len())]));
    }
}

/// A text spells at most one run of words: the tokens can be read back from
/// the text.
pub proof fn lemma_spelling_is_unique(text: Seq<char>, a: Seq<Seq<char>>, b: Seq<Seq<char>>)
    requires
        spells(text, a),
        spells(text, b),
        forall|i: int| 0 <= i < a.len() ==> is_word(#[trigger] a[i]),
        forall|i: int| 0 <= i < b.len() ==> is_word(#[trigger] b[i]),
    ensures
        a == b,
    decreases a.len(),
{
    if a.len() == 0 || b.len() == 0 {
        assert(a =~= b);
    } else {
        let end = text.len() - 1;
        let last_a = a.last();
        let last_b = b.last();
        assert(is_word(last_a));
        assert(is_word(last_b));
        let head_a = text.subrange(0, end - last_a.len());
        let head_b = text.subrange(0, end - last_b.len());
        lemma_last_word_is_no_longer(text, a, b);
        lemma_last_word_is_no_longer(text, b, a);
        assert(last_a =~= last_b);
        assert(head_a =~= head_b);
        lemma_spelling_is_unique(head_a, a.drop_last(), b.drop_last());
        assert(a =~= a.drop_last().push(last_a));
        assert(b =~= b.drop_last().push(last_b));
    }
}

} // verus!

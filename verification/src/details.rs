//! The response details under each row of the score report: every message
//! the model answered with, its newlines made spaces, wrapped to the width
//! of the table.
use crate::evaluate::Choice;
use crate::score::{all_choices, collect_choices, ScoredBench};
use crate::table::{cyan_text, decimal, decimal_text, format_response_number, gray, gray_text, red_text};
use crate::text::push_char;
use vstd::prelude::*;

verus! {

/// The text of a choice: the message content of a chat choice, empty when it
/// has none.
pub open spec fn choice_text(c: Choice) -> Seq<char> {
    match c {
        Choice::NonStreaming { content } => match content {
            Some(s) => s@,
            None => Seq::empty(),
        },
        Choice::Other => Seq::empty(),
    }
}

/// The choices of every response of a scored bench, in order.
pub open spec fn choices_of(sb: ScoredBench) -> Seq<Choice> {
    all_choices(sb.result.responses@)
}

/// Every choice of every scored bench is a chat (non-streaming) choice.
pub open spec fn chats_only(scores: Seq<ScoredBench>) -> bool {
    forall|i: int, j: int|
        0 <= i < scores.len() && 0 <= j < choices_of(scores[i]).len()
            ==> #[trigger] choices_of(scores[i])[j] is NonStreaming
}

/// The messages of a scored bench, one per choice, in order.
pub open spec fn chat_of(sb: ScoredBench) -> Seq<Seq<char>> {
    choices_of(sb).map_values(|c: Choice| choice_text(c))
}

/// Whether every choice of every scored bench is a chat choice, the only
/// kind whose messages the details show.
pub fn chats_only_check(scores: &[ScoredBench]) -> (r: bool)
    ensures
        r == chats_only(scores@),
{
    let mut i: usize = 0;
    while i < scores.len()
        invariant
            i <= scores@.len(),
            forall|a: int, j: int|
                0 <= a < i && 0 <= j < choices_of(scores@[a]).len()
                    ==> #[trigger] choices_of(scores@[a])[j] is NonStreaming,
        decreases scores.len() - i,
    {
        let cs = collect_choices(&scores[i].result.responses);
        let mut j: usize = 0;
        while j < cs.len()
            invariant
                i < scores@.len(),
                j <= cs@.len(),
                cs@ == choices_of(scores@[i as int]),
                forall|k: int| 0 <= k < j ==> (#[trigger] cs@[k]) is NonStreaming,
            decreases cs.len() - j,
        {
            match &cs[j] {
                Choice::NonStreaming { .. } => {},
                Choice::Other => {
                    return false;
                },
            }
            j += 1;
        }
        i += 1;
    }
    true
}

/// The messages of a scored bench's responses, one per choice: the content
/// of each chat choice, empty where it has none.
pub fn get_chat_summary(response: &ScoredBench) -> (r: Vec<String>)
    requires
        forall|j: int|
            0 <= j < choices_of(*response).len() ==> #[trigger] choices_of(*response)[j] is NonStreaming,
    ensures
        r@.len() == chat_of(*response).len(),
        forall|k: int| 0 <= k < r@.len() ==> (#[trigger] r@[k])@ == chat_of(*response)[k],
{
    let cs = collect_choices(&response.result.responses);
    let mut out: Vec<String> = Vec::new();
    let mut i: usize = 0;
    while i < cs.len()
        invariant
            i <= cs@.len(),
            cs@ == choices_of(*response),
            out@.len() == i,
            forall|k: int| 0 <= k < i ==> (#[trigger] out@[k])@ == choice_text(cs@[k]),
        decreases cs.len() - i,
    {
        let text = match &cs[i] {
            Choice::NonStreaming { content } => match content {
                Some(s) => s.clone(),
                None => String::new(),
            },
            Choice::Other => String::new(),
        };
        out.push(text);
        i += 1;
    }
    out
}

/// `s` with every newline made a space.
pub open spec fn newlines_to_spaces(s: Seq<char>) -> Seq<char> {
    s.map_values(|c: char| if c == '\n' { ' ' } else { c })
}

/// `s` with every newline made a space.
pub fn replace_newlines(s: &str) -> (r: String)
    ensures
        r@ == newlines_to_spaces(s@),
{
    let cs = crate::text::chars_of(s);
    let mut out = String::new();
    let mut i: usize = 0;
    while i < cs.len()
        invariant
            i <= cs@.len(),
            cs@ == s@,
            out@ == newlines_to_spaces(s@.take(i as int)),
        decreases cs.len() - i,
    {
        let c = cs[i];
        push_char(&mut out, if c == '\n' { ' ' } else { c });
        assert(newlines_to_spaces(s@.take(i as int + 1)) =~= newlines_to_spaces(s@.take(i as int)).push(
            if c == '\n' { ' ' } else { c },
        ));
        i += 1;
    }
    assert(s@.take(cs@.len() as int) =~= s@);
    out
}

/// What `textwrap::wrap` gives for `text` at `width`: its lines.
pub uninterp spec fn wrapped_lines(text: Seq<char>, width: usize) -> Seq<Seq<char>>;

/// `textwrap::wrap` with a plain width: the lines it breaks `text` into,
/// named here. Its source unwraps the optimal-fit computation, which it
/// documents cannot fail for widths that fit in a `usize`.
#[verifier::external_body]
fn wrap_text(text: &str, width: usize) -> (r: Vec<String>)
    ensures
        r@.len() == wrapped_lines(text@, width).len(),
        forall|k: int| 0 <= k < r@.len() ==> (#[trigger] r@[k])@ == wrapped_lines(text@, width)[k],
{
    textwrap::wrap(text, width).into_iter().map(|line| line.into_owned()).collect()
}

/// The wrapped lines of one message: the first follows the turn's prefix,
/// each later one starts a line of its own behind the divider; every line is
/// gray and ends with a newline.
pub open spec fn lines_text(lines: Seq<Seq<char>>, div: Seq<char>) -> Seq<char>
    decreases lines.len(),
{
    if lines.len() == 0 {
        Seq::empty()
    } else {
        lines_text(lines.drop_last(), div) + (if lines.len() == 1 {
            Seq::empty()
        } else {
            div + "       "@
        }) + gray_text(lines.last()) + "\n"@
    }
}

/// The response number of a detail: `<n>R`, cyan when the response passed,
/// else red.
pub open spec fn response_number_text(n: nat, pass: bool) -> Seq<char> {
    if pass {
        cyan_text(decimal_text(n) + "R"@)
    } else {
        red_text(decimal_text(n) + "R"@)
    }
}

/// One message of a response: the divider, the response and turn numbers,
/// then the message with newlines made spaces, wrapped to `width`.
pub open spec fn turn_text(
    div: Seq<char>,
    response_number: nat,
    pass: bool,
    turn_number: nat,
    message: Seq<char>,
    width: usize,
) -> Seq<char> {
    div + "  "@ + response_number_text(response_number, pass) + gray_text(
        decimal_text(turn_number) + ": "@,
    ) + lines_text(wrapped_lines(newlines_to_spaces(message), width), div)
}

/// The messages of one response, numbered from 1.
pub open spec fn turns_text(
    div: Seq<char>,
    response_number: nat,
    pass: bool,
    chat: Seq<Seq<char>>,
    width: usize,
) -> Seq<char>
    decreases chat.len(),
{
    if chat.len() == 0 {
        Seq::empty()
    } else {
        turns_text(div, response_number, pass, chat.drop_last(), width) + turn_text(
            div,
            response_number,
            pass,
            chat.len(),
            chat.last(),
            width,
        )
    }
}

/// The details of every scored bench, numbered from 1, each message wrapped
/// to `width`.
pub open spec fn details_text(scores: Seq<ScoredBench>, div: Seq<char>, width: usize) -> Seq<char>
    decreases scores.len(),
{
    if scores.len() == 0 {
        Seq::empty()
    } else {
        details_text(scores.drop_last(), div, width) + turns_text(
            div,
            scores.len(),
            scores.last().score.passed,
            chat_of(scores.last()),
            width,
        )
    }
}

/// The messages of a response are numbered by turn from 1: the text of the
/// first `k + 1` messages is that of the first `k`, then message `k` behind
/// the divider, labelled with the response number, `R`, the number `k + 1`
/// and `: `, and wrapped to `width`.
pub proof fn lemma_turns_numbered(
    div: Seq<char>,
    response_number: nat,
    pass: bool,
    chat: Seq<Seq<char>>,
    width: usize,
    k: int,
)
    requires
        0 <= k < chat.len(),
    ensures
        turns_text(div, response_number, pass, chat.take(k + 1), width) == turns_text(
            div,
            response_number,
            pass,
            chat.take(k),
            width,
        ) + div + "  "@ + (if pass {
            cyan_text(decimal_text(response_number) + "R"@)
        } else {
            red_text(decimal_text(response_number) + "R"@)
        }) + gray_text(decimal_text((k + 1) as nat) + ": "@) + lines_text(
            wrapped_lines(newlines_to_spaces(chat[k]), width),
            div,
        ),
        turns_text(div, response_number, pass, chat.take(chat.len() as int), width) == turns_text(
            div,
            response_number,
            pass,
            chat,
            width,
        ),
{
    assert(chat.take(k + 1).drop_last() =~= chat.take(k));
    assert(chat.take(k + 1).last() == chat[k]);
    assert(chat.take(chat.len() as int) =~= chat);
}

/// The scored benches are numbered from 1 in the details: the details of
/// the first `i + 1` are those of the first `i`, then the messages of bench
/// `i` under response number `i + 1`, passed or failed as that bench was.
pub proof fn lemma_responses_numbered(scores: Seq<ScoredBench>, div: Seq<char>, width: usize, i: int)
    requires
        0 <= i < scores.len(),
    ensures
        details_text(scores.take(i + 1), div, width) == details_text(scores.take(i), div, width)
            + turns_text(div, (i + 1) as nat, scores[i].score.passed, chat_of(scores[i]), width),
        details_text(scores.take(scores.len() as int), div, width) == details_text(scores, div, width),
{
    assert(scores.take(i + 1).drop_last() =~= scores.take(i));
    assert(scores.take(i + 1).last() == scores[i]);
    assert(scores.take(scores.len() as int) =~= scores);
}

/// The wrapped lines of one message, as `lines_text` writes them.
fn write_lines(out: &mut String, lines: &Vec<String>, div: &str)
    ensures
        final(out)@ == old(out)@ + lines_text(lines@.map_values(|l: String| l@), div@),
{
    let ghost ls = lines@.map_values(|l: String| l@);
    let ghost start = out@;
    let mut i: usize = 0;
    while i < lines.len()
        invariant
            i <= lines@.len(),
            ls == lines@.map_values(|l: String| l@),
            out@ == start + lines_text(ls.take(i as int), div@),
        decreases lines.len() - i,
    {
        assert(ls.take(i as int + 1).drop_last() =~= ls.take(i as int));
        if i > 0 {
            out.append(div);
            out.append("       ");
        }
        let g = gray(lines[i].as_str());
        out.append(g.as_str());
        out.append("\n");
        i += 1;
    }
    assert(ls.take(lines@.len() as int) =~= ls);
}

/// The details printed under the row of `scores`: for each response, each of
/// its messages with its response and turn number, wrapped to the table's
/// width less the room the numbers take.
pub fn response_details(scores: &[ScoredBench], div: &str, table_width: usize) -> (r: String)
    requires
        table_width >= 13,
        chats_only(scores@),
    ensures
        r@ == details_text(scores@, div@, (table_width - 13) as usize),
{
    let width = table_width - 13;
    let mut out = String::new();
    let mut i: usize = 0;
    while i < scores.len()
        invariant
            i <= scores@.len(),
            width == table_width - 13,
            chats_only(scores@),
            out@ == details_text(scores@.take(i as int), div@, width),
        decreases scores.len() - i,
    {
        assert(scores@.take(i as int + 1).drop_last() =~= scores@.take(i as int));
        let ghost before = out@;
        let response = &scores[i];
        assert forall|j: int| 0 <= j < choices_of(*response).len() implies
            #[trigger] choices_of(*response)[j] is NonStreaming by {
            assert(choices_of(scores@[i as int])[j] is NonStreaming);
        }
        let chat = get_chat_summary(response);
        let ghost msgs = chat@.map_values(|m: String| m@);
        assert(msgs =~= chat_of(*response));
        let pass = response.score.passed;
        let number = i + 1;
        let mut t: usize = 0;
        while t < chat.len()
            invariant
                t <= chat@.len(),
                i < scores@.len(),
                number == i + 1,
                msgs == chat@.map_values(|m: String| m@),
                out@ == before + turns_text(div@, (i + 1) as nat, pass, msgs.take(t as int), width),
            decreases chat.len() - t,
        {
            assert(msgs.take(t as int + 1).drop_last() =~= msgs.take(t as int));
            let ghost prefix = out@;
            let rnumber = format_response_number(number, pass);
            let mut turn = decimal((t + 1) as u64);
            turn.append(": ");
            let tnumber = gray(turn.as_str());
            let message = replace_newlines(chat[t].as_str());
            assert(message@ == newlines_to_spaces(msgs[t as int]));
            let lines = wrap_text(message.as_str(), width);
            assert(lines@.map_values(|l: String| l@) =~= wrapped_lines(message@, width));
            out.append(div);
            out.append("  ");
            out.append(rnumber.as_str());
            out.append(tnumber.as_str());
            let ghost head = out@;
            assert(head =~= prefix + div@ + "  "@ + rnumber@ + tnumber@);
            write_lines(&mut out, &lines, div);
            assert(out@ =~= prefix + div@ + "  "@ + rnumber@ + tnumber@ + lines_text(
                wrapped_lines(newlines_to_spaces(msgs[t as int]), width),
                div@,
            ));
            t += 1;
        }
        assert(msgs.take(chat@.len() as int) =~= msgs);
        i += 1;
    }
    assert(scores@.take(scores@.len() as int) =~= scores@);
    out
}

} // verus!

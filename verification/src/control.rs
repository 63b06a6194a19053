//! The control port: one command per line, one line in reply.
use crate::arbiter::{Arbiter, status_text};
use crate::ownership::{
    Claim, ClaimResult, Ownership, law_release_all_restores_the_default,
    law_release_restores_the_default, lemma_filter_keeps_all, name_list,
};
use crate::text::{
    append_token, decimal, hex_byte, is_hex, is_hex_number, law_hex_numbers,
    law_token_text_round_trips, parse_token, token_text, token_value,
};
use vstd::prelude::*;
use vstd::string::*;
use vstd::utf8::{encode_utf8, is_ascii_chars, is_ascii_chars_encode_utf8};

verus! {

/// Whether `b` separates words: a space, a tab, or a part of a line ending.
pub open spec fn is_blank(b: u8) -> bool {
    b == 32 || b == 9 || b == 13 || b == 10
}

/// The words of a line: its longest runs without a blank, in order.
pub open spec fn words(line: Seq<u8>) -> Seq<Seq<u8>>
    decreases line.len(),
{
    if line.len() == 0 {
        Seq::empty()
    } else {
        let before = words(line.drop_last());
        if is_blank(line.last()) {
            before
        } else if line.len() > 1 && !is_blank(line[line.len() - 2]) {
            before.drop_last().push(before.last().push(line.last()))
        } else {
            before.push(seq![line.last()])
        }
    }
}

/// A request on the control port.
#[derive(Clone, Copy, PartialEq, Eq, Structural)]
pub enum Command {
    /// An empty line.
    Blank,
    /// Report the clients and the TX owner.
    Status,
    /// Ask for the TX lock, by force or not.
    Claim(bool),
    /// Give up everything that was claimed over this connection.
    ReleaseAll,
    /// Give up the claim with this token; there is none if the word given
    /// cannot be a token.
    Release(Option<u64>),
    /// List the commands.
    Help,
    /// None of these.
    Unknown,
}

/// The request that a line makes.
pub open spec fn command(line: Seq<u8>) -> Command {
    let w = words(line);
    if w.len() == 0 {
        Command::Blank
    } else if w.len() == 1 && w[0] == encode_utf8("STATUS"@) {
        Command::Status
    } else if w.len() == 1 && w[0] == encode_utf8("CLAIM"@) {
        Command::Claim(false)
    } else if w.len() == 2 && w[0] == encode_utf8("CLAIM"@) && w[1] == encode_utf8("--force"@) {
        Command::Claim(true)
    } else if w.len() == 1 && w[0] == encode_utf8("RELEASE"@) {
        Command::ReleaseAll
    } else if w.len() == 2 && w[0] == encode_utf8("RELEASE"@) {
        Command::Release(
            if is_hex_number(w[1]) {
                token_value(w[1])
            } else {
                None
            },
        )
    } else if w.len() == 1 && w[0] == encode_utf8("HELP"@) {
        Command::Help
    } else {
        Command::Unknown
    }
}

/// What goes back over the control connection.
pub enum Reply {
    /// Nothing.
    Silent,
    /// This line.
    Line(String),
    /// Nothing yet: the token that was proposed is in use, so the request has to
    /// be made again with another one.
    Retry,
}

/// What a [`Reply`] is.
pub enum ReplyView {
    Silent,
    Line(Seq<char>),
    Retry,
}

impl View for Reply {
    type V = ReplyView;

    open spec fn view(&self) -> ReplyView {
        match self {
            Reply::Silent => ReplyView::Silent,
            Reply::Line(text) => ReplyView::Line(text@),
            Reply::Retry => ReplyView::Retry,
        }
    }
}

/// The reply that hands out a token.
pub open spec fn granted_text(token: u64) -> Seq<char> {
    "OK token: "@ + token_text(token) + "\n"@
}

/// The reply to a request for a lock that another connection holds.
pub open spec fn held_text(o: Ownership) -> Seq<char> {
    "ERR tx held by "@ + o.owner_name() + "\n"@
}

/// The reply to a request on control connection `control`, where `token` is
/// proposed for a new claim.
pub open spec fn reply(o: Ownership, control: u64, request: Command, token: u64) -> ReplyView {
    match request {
        Command::Blank => ReplyView::Silent,
        Command::Status => ReplyView::Line(status_text(o)),
        Command::Claim(force) => match o.claim_result(force, token) {
            ClaimResult::Granted => ReplyView::Line(granted_text(token)),
            ClaimResult::Held => ReplyView::Line(held_text(o)),
            ClaimResult::Taken => ReplyView::Retry,
        },
        Command::ReleaseAll => if o.has_claims(control) {
            ReplyView::Line("OK released\n"@)
        } else {
            ReplyView::Line("ERR nothing to release\n"@)
        },
        Command::Release(named) => if named is Some && o.knows(named->0) {
            ReplyView::Line("OK released\n"@)
        } else {
            ReplyView::Line("ERR unknown token\n"@)
        },
        Command::Help => ReplyView::Line(
            "OK commands: STATUS, CLAIM [--force], RELEASE [token], HELP\n"@,
        ),
        Command::Unknown => ReplyView::Line("ERR unknown command, try HELP\n"@),
    }
}

/// What a request on control connection `control` does to the lock.
pub open spec fn requested(o: Ownership, control: u64, request: Command, token: u64) -> Ownership {
    match request {
        Command::Claim(force) => if o.claim_result(force, token) is Granted {
            o.claimed(Claim { token, control, force })
        } else {
            o
        },
        Command::ReleaseAll => o.all_released(control),
        Command::Release(Some(named)) => o.released(named),
        _ => o,
    }
}

fn blank(b: u8) -> (r: bool)
    ensures
        r == is_blank(b),
{
    b == 32 || b == 9 || b == 13 || b == 10
}

spec fn byte_views(words: Seq<Vec<u8>>) -> Seq<Seq<u8>> {
    words.map_values(|w: Vec<u8>| w@)
}

fn split_words(line: &[u8]) -> (r: Vec<Vec<u8>>)
    ensures
        r@.len() == words(line@).len(),
        forall|i: int| 0 <= i < r@.len() ==> (#[trigger] r@[i])@ == words(line@)[i],
{
    let mut found: Vec<Vec<u8>> = Vec::new();
    let mut current: Vec<u8> = Vec::new();
    let mut i: usize = 0;
    assert(words(line@.take(0)) =~= byte_views(found@));
    while i < line.len()
        invariant
            i <= line@.len(),
            current@.len() > 0 <==> i > 0 && !is_blank(line@[i - 1]),
            words(line@.take(i as int)) == (if current@.len() > 0 {
                byte_views(found@).push(current@)
            } else {
                byte_views(found@)
            }),
        decreases line@.len() - i,
    {
        let ghost before = words(line@.take(i as int));
        let ghost grown = line@.take(i + 1);
        proof {
            assert(grown.drop_last() =~= line@.take(i as int));
            assert(grown.last() == line@[i as int]);
            if i > 0 {
                assert(grown[grown.len() - 2] == line@[i - 1]);
            }
        }
        let b: u8 = line[i];
        if blank(b) {
            if current.len() > 0 {
                let ghost views = byte_views(found@);
                found.push(current);
                assert(byte_views(found@) =~= views.push(current@));
                current = Vec::new();
            }
        } else {
            let ghost word = current@;
            current.push(b);
            proof {
                if word.len() > 0 {
                    assert(before.drop_last() =~= byte_views(found@));
                    assert(before.last() == word);
                } else {
                    assert(current@ =~= seq![b]);
                }
            }
        }
        i += 1;
    }
    assert(line@.take(i as int) =~= line@);
    if current.len() > 0 {
        let ghost views = byte_views(found@);
        found.push(current);
        assert(byte_views(found@) =~= views.push(current@));
    }
    assert(byte_views(found@) == words(line@));
    assert forall|k: int| 0 <= k < found@.len() implies (#[trigger] found@[k])@ == words(
        line@,
    )[k] by {
        assert(byte_views(found@)[k] == found@[k]@);
    }
    found
}

fn word_is(word: &Vec<u8>, text: &str) -> (r: bool)
    ensures
        r == (word@ == encode_utf8(text@)),
{
    let bytes = text.as_bytes();
    if word.len() != bytes.len() {
        return false;
    }
    let mut i: usize = 0;
    while i < word.len()
        invariant
            i <= word@.len(),
            word@.len() == bytes@.len(),
            bytes@ == encode_utf8(text@),
            forall|j: int| 0 <= j < i ==> word@[j] == bytes@[j],
        decreases word@.len() - i,
    {
        if word[i] != bytes[i] {
            return false;
        }
        i += 1;
    }
    assert(word@ =~= bytes@);
    true
}

fn hex_word(word: &Vec<u8>) -> (r: bool)
    ensures
        r == is_hex_number(word@),
{
    let mut i: usize = 0;
    while i < word.len()
        invariant
            i <= word@.len(),
            forall|j: int| 0 <= j < i ==> is_hex(#[trigger] word@[j]),
        decreases word@.len() - i,
    {
        if !hex_byte(word[i]) {
            assert(!is_hex(word@[i as int]));
            return false;
        }
        i += 1;
    }
    word.len() > 0
}

/// Reads a line from the control port.
pub fn parse_command(line: &[u8]) -> (r: Command)
    ensures
        r == command(line@),
{
    let found = split_words(line);
    if found.len() == 0 {
        return Command::Blank;
    }
    if found.len() == 1 {
        if word_is(&found[0], "STATUS") {
            return Command::Status;
        }
        if word_is(&found[0], "CLAIM") {
            return Command::Claim(false);
        }
        if word_is(&found[0], "RELEASE") {
            return Command::ReleaseAll;
        }
        if word_is(&found[0], "HELP") {
            return Command::Help;
        }
        return Command::Unknown;
    }
    if found.len() == 2 {
        if word_is(&found[0], "CLAIM") && word_is(&found[1], "--force") {
            return Command::Claim(true);
        }
        if word_is(&found[0], "RELEASE") {
            if hex_word(&found[1]) {
                return Command::Release(parse_token(found[1].as_slice()));
            }
            return Command::Release(None);
        }
    }
    Command::Unknown
}

fn line(text: &str) -> (r: Reply)
    ensures
        r@ == ReplyView::Line(text@),
{
    Reply::Line(text.to_owned())
}

fn released_or(done: bool, otherwise: &str) -> (r: Reply)
    ensures
        r@ == ReplyView::Line(
            if done {
                "OK released\n"@
            } else {
                otherwise@
            },
        ),
{
    if done {
        line("OK released\n")
    } else {
        line(otherwise)
    }
}

/// Carries out a request that came in on control connection `control`. `token`
/// is handed out if it is a successful claim.
pub fn execute(arbiter: &mut Arbiter, control: u64, request: Command, token: u64) -> (r: Reply)
    requires
        old(arbiter).wf(),
    ensures
        final(arbiter).wf(),
        final(arbiter)@ == requested(old(arbiter)@, control, request, token),
        r@ == reply(old(arbiter)@, control, request, token),
{
    match request {
        Command::Blank => Reply::Silent,
        Command::Status => Reply::Line(arbiter.status()),
        Command::Claim(force) => match arbiter.claim(control, force, token) {
            ClaimResult::Granted => {
                let mut text = String::new();
                text.append("OK token: ");
                append_token(&mut text, token);
                text.append("\n");
                assert(text@ =~= granted_text(token));
                Reply::Line(text)
            },
            ClaimResult::Held => {
                let mut text = String::new();
                text.append("ERR tx held by ");
                text.append(arbiter.owner_name().as_str());
                text.append("\n");
                assert(text@ =~= held_text(arbiter@));
                Reply::Line(text)
            },
            ClaimResult::Taken => Reply::Retry,
        },
        Command::ReleaseAll => released_or(
            arbiter.release_all(control),
            "ERR nothing to release\n",
        ),
        Command::Release(Some(named)) => released_or(
            arbiter.release(named),
            "ERR unknown token\n",
        ),
        Command::Release(None) => line("ERR unknown token\n"),
        Command::Help => line("OK commands: STATUS, CLAIM [--force], RELEASE [token], HELP\n"),
        Command::Unknown => line("ERR unknown command, try HELP\n"),
    }
}

/// Answers a line that came in on control connection `control`, where `token`
/// is proposed for a new claim.
pub fn answer(arbiter: &mut Arbiter, control: u64, line: &[u8], token: u64) -> (r: Reply)
    requires
        old(arbiter).wf(),
    ensures
        final(arbiter).wf(),
        final(arbiter)@ == requested(old(arbiter)@, control, command(line@), token),
        r@ == reply(old(arbiter)@, control, command(line@), token),
{
    let request = parse_command(line);
    execute(arbiter, control, request, token)
}

/// Whether a request is turned down: a plain claim on a lock that a data
/// connection holds, a release of something that is not there, or nothing that
/// is known at all.
pub open spec fn refused(o: Ownership, control: u64, request: Command) -> bool {
    match request {
        Command::Claim(force) => o.bound is Some && !force,
        Command::ReleaseAll => !o.has_claims(control),
        Command::Release(named) => named is None || !o.knows(named->0),
        Command::Unknown => true,
        _ => false,
    }
}

/// A request that is turned down is answered with a line that starts with `ERR`,
/// and changes nothing. Every other line in reply starts with `OK`.
pub proof fn law_refusals_change_nothing(
    o: Ownership,
    control: u64,
    request: Command,
    token: u64,
)
    ensures
        refused(o, control, request) ==> requested(o, control, request, token) == o,
        refused(o, control, request) <==> (reply(o, control, request, token) matches
            ReplyView::Line(text) && "ERR "@.is_prefix_of(text)),
        !refused(o, control, request) ==> (reply(o, control, request, token) matches
            ReplyView::Line(text) ==> "OK "@.is_prefix_of(text)),
{
    reveal_strlit("ERR ");
    reveal_strlit("OK ");
    reveal_strlit("OK clients: ");
    reveal_strlit("OK token: ");
    reveal_strlit("OK released\n");
    reveal_strlit("OK commands: STATUS, CLAIM [--force], RELEASE [token], HELP\n");
    reveal_strlit("ERR tx held by ");
    reveal_strlit("ERR nothing to release\n");
    reveal_strlit("ERR unknown token\n");
    reveal_strlit("ERR unknown command, try HELP\n");
    if refused(o, control, request) {
        match request {
            Command::ReleaseAll => {
                lemma_filter_keeps_all(o.pending, |c: Claim| c.control != control);
                assert(o.all_released(control) =~= o);
            },
            Command::Release(Some(named)) => {
                lemma_filter_keeps_all(o.pending, |c: Claim| c.token != named);
                assert(o.released(named) =~= o);
            },
            _ => {},
        }
    } else if reply(o, control, request, token) is Line {
        let text = reply(o, control, request, token)->0;
        assert(text[0] == 'O');
        if "ERR "@.is_prefix_of(text) {
            assert("ERR "@[0] == text.subrange(0, 4)[0]);
        }
    }
}

proof fn lemma_word_at_end(p: Seq<u8>, w: Seq<u8>)
    requires
        w.len() > 0,
        forall|i: int| 0 <= i < w.len() ==> !is_blank(#[trigger] w[i]),
        p.len() == 0 || is_blank(p.last()),
    ensures
        words(p + w) == words(p).push(w),
    decreases w.len(),
{
    let line = p + w;
    let head = w.drop_last();
    assert(line.drop_last() =~= p + head);
    assert(line.last() == w.last());
    if w.len() == 1 {
        assert(p + head =~= p);
        assert(seq![w.last()] =~= w);
    } else {
        lemma_word_at_end(p, head);
        assert(line[line.len() - 2] == w[w.len() - 2]);
        assert(words(p).push(head).drop_last() =~= words(p));
        assert(head.push(w.last()) =~= w);
    }
}

proof fn lemma_blanks_at_end(p: Seq<u8>, e: Seq<u8>)
    requires
        forall|i: int| 0 <= i < e.len() ==> is_blank(#[trigger] e[i]),
    ensures
        words(p + e) == words(p),
    decreases e.len(),
{
    if e.len() == 0 {
        assert(p + e =~= p);
    } else {
        lemma_blanks_at_end(p, e.drop_last());
        assert((p + e).drop_last() =~= p + e.drop_last());
        assert((p + e).last() == e.last());
    }
}

/// A tool that sends `RELEASE` and the text of a token, with any blanks behind
/// it, gives up the claim with that very token.
pub proof fn law_release_names_the_token(token: u64, ending: Seq<u8>)
    requires
        forall|i: int| 0 <= i < ending.len() ==> is_blank(#[trigger] ending[i]),
    ensures
        command(encode_utf8("RELEASE "@ + token_text(token)) + ending) == Command::Release(
            Some(token),
        ),
{
    let verb = encode_utf8("RELEASE"@);
    let digits = encode_utf8(token_text(token));
    let text = "RELEASE "@ + token_text(token);
    let bytes = encode_utf8(text);
    reveal_strlit("RELEASE");
    reveal_strlit("RELEASE ");
    reveal_strlit("CLAIM");
    is_ascii_chars_encode_utf8("RELEASE"@);
    is_ascii_chars_encode_utf8("CLAIM"@);
    law_token_text_round_trips(token);
    is_ascii_chars_encode_utf8(token_text(token));
    assert(is_ascii_chars(text)) by {
        assert forall|i: int| 0 <= i < text.len() implies '\0' <= #[trigger] text[i]
            <= '\u{7f}' by {
            if i >= 8 {
                assert(text[i] == token_text(token)[i - 8]);
            }
        }
    }
    is_ascii_chars_encode_utf8(text);
    let prefix = verb.push(32);
    assert forall|i: int| 0 <= i < 8 implies bytes[i] == prefix[i] by {
        assert(text[i] == "RELEASE "@[i]);
        if i < 7 {
            assert("RELEASE"@[i] == "RELEASE "@[i]);
        }
    }
    assert forall|i: int| 0 <= i < 16 implies bytes[8 + i] == digits[i] by {
        assert(text[8 + i] == token_text(token)[i]);
    }
    assert(bytes =~= prefix + digits);
    assert forall|i: int| 0 <= i < 7 implies !is_blank(#[trigger] verb[i]) by {
        assert("RELEASE"@[i] as u8 == verb[i]);
    }
    assert forall|i: int| 0 <= i < 16 implies !is_blank(#[trigger] digits[i]) by {
        assert(is_hex(digits[i]));
    }
    lemma_word_at_end(Seq::empty(), verb);
    assert(Seq::empty() + verb =~= verb);
    assert(prefix =~= verb + seq![32u8]);
    lemma_blanks_at_end(verb, seq![32u8]);
    lemma_word_at_end(prefix, digits);
    lemma_blanks_at_end(bytes, ending);
    let w = words(bytes + ending);
    assert(w =~= seq![verb, digits]);
    assert(w[0] != encode_utf8("CLAIM"@));
}

/// Words are what stands between spaces, tabs and the bytes of line endings: an
/// empty line has none, a run without such a byte is one, and such a byte ends a
/// word wherever it stands.
pub proof fn law_words_stand_between_blanks(a: Seq<u8>, sep: u8, b: Seq<u8>)
    requires
        sep == ' ' as u8 || sep == '\t' as u8 || sep == '\r' as u8 || sep == '\n' as u8,
    ensures
        words(Seq::empty()).len() == 0,
        words(a.push(sep) + b) == words(a) + words(b),
        a.len() > 0 && (forall|i: int|
            0 <= i < a.len() ==> #[trigger] a[i] != ' ' as u8 && a[i] != '\t' as u8 && a[i]
                != '\r' as u8 && a[i] != '\n' as u8) ==> words(a) == seq![a],
    decreases b.len(),
{
    if a.len() > 0 && (forall|i: int|
        0 <= i < a.len() ==> #[trigger] a[i] != ' ' as u8 && a[i] != '\t' as u8 && a[i]
            != '\r' as u8 && a[i] != '\n' as u8) {
        lemma_word_at_end(Seq::empty(), a);
        assert(Seq::empty() + a =~= a);
        assert(words(a) =~= seq![a]);
    }
    let line = a.push(sep) + b;
    if b.len() == 0 {
        assert(line.drop_last() =~= a);
        assert(words(line) =~= words(a) + words(b));
    } else {
        let head = b.drop_last();
        law_words_stand_between_blanks(a, sep, head);
        assert(line.drop_last() =~= a.push(sep) + head);
        assert(line.last() == b.last());
        if b.len() > 1 {
            assert(line[line.len() - 2] == b[b.len() - 2]);
            if !is_blank(b[b.len() - 2]) {
                lemma_last_word(head);
            }
        } else {
            assert(line[line.len() - 2] == sep);
        }
        assert(words(line) =~= words(a) + words(b));
    }
}

proof fn lemma_last_word(line: Seq<u8>)
    requires
        line.len() > 0,
        !is_blank(line.last()),
    ensures
        words(line).len() > 0,
    decreases line.len(),
{
    if line.len() > 1 && !is_blank(line[line.len() - 2]) {
        lemma_last_word(line.drop_last());
    }
}

/// The commands, by their words, in capitals and with nothing behind them but
/// what is said here. A line without words asks for nothing, and every other line
/// is no command.
pub proof fn law_commands_are_their_words(line: Seq<u8>)
    ensures
        command(line) is Blank <==> words(line).len() == 0,
        command(line) is Status <==> words(line) == seq![encode_utf8("STATUS"@)],
        command(line) == Command::Claim(false) <==> words(line) == seq![encode_utf8("CLAIM"@)],
        command(line) == Command::Claim(true) <==> words(line) == seq![
            encode_utf8("CLAIM"@),
            encode_utf8("--force"@),
        ],
        command(line) is ReleaseAll <==> words(line) == seq![encode_utf8("RELEASE"@)],
        command(line) is Help <==> words(line) == seq![encode_utf8("HELP"@)],
        command(line) is Release <==> words(line).len() == 2 && words(line)[0] == encode_utf8(
            "RELEASE"@,
        ),
{
    let w = words(line);
    lemma_command_words();
    if w.len() == 1 {
        assert(w =~= seq![w[0]]);
    }
    if w.len() == 2 {
        assert(w =~= seq![w[0], w[1]]);
    }
}

proof fn lemma_command_words()
    ensures
        encode_utf8("STATUS"@) != encode_utf8("CLAIM"@),
        encode_utf8("STATUS"@) != encode_utf8("RELEASE"@),
        encode_utf8("STATUS"@) != encode_utf8("HELP"@),
        encode_utf8("CLAIM"@) != encode_utf8("RELEASE"@),
        encode_utf8("CLAIM"@) != encode_utf8("HELP"@),
        encode_utf8("RELEASE"@) != encode_utf8("HELP"@),
{
    reveal_strlit("STATUS");
    reveal_strlit("CLAIM");
    reveal_strlit("RELEASE");
    reveal_strlit("HELP");
    is_ascii_chars_encode_utf8("STATUS"@);
    is_ascii_chars_encode_utf8("CLAIM"@);
    is_ascii_chars_encode_utf8("RELEASE"@);
    is_ascii_chars_encode_utf8("HELP"@);
}

/// The second word of a release names the token that its hexadecimal digits
/// spell. A word that has anything else in it, or spells a number that is too
/// large, names no token.
pub proof fn law_a_release_reads_the_number(line: Seq<u8>)
    requires
        words(line).len() == 2,
        words(line)[0] == encode_utf8("RELEASE"@),
        words(line)[1].len() > 0,
    ensures
        ({
            let digits = words(line)[1];
            let value = digits.fold_left(
                0int,
                |v: int, b: u8|
                    v * 16 + if b <= '9' as u8 {
                        b - '0' as u8
                    } else if b <= 'F' as u8 {
                        b - 'A' as u8 + 10
                    } else {
                        b - 'a' as u8 + 10
                    },
            );
            let all_hex = forall|i: int|
                0 <= i < digits.len() ==> ('0' as u8 <= #[trigger] digits[i] <= '9' as u8
                    || 'a' as u8 <= digits[i] <= 'f' as u8 || 'A' as u8 <= digits[i]
                    <= 'F' as u8);
            &&& all_hex && value <= u64::MAX ==> command(line) == Command::Release(
                Some(value as u64),
            )
            &&& !all_hex || value > u64::MAX ==> command(line) == Command::Release(None)
        }),
{
    lemma_command_words();
    law_hex_numbers(words(line)[1]);
}

/// What is sent back, word for word.
pub proof fn law_answers(o: Ownership, control: u64, force: bool, named: u64, token: u64)
    ensures
        reply(o, control, Command::Blank, token) is Silent,
        reply(o, control, Command::Status, token) == ReplyView::Line(
            "OK clients: "@ + decimal(o.clients.len()) + " ("@ + name_list(o.clients)
                + ")  tx-owner: "@ + o.owner_name() + "\n"@,
        ),
        reply(o, control, Command::Help, token) == ReplyView::Line(
            "OK commands: STATUS, CLAIM [--force], RELEASE [token], HELP\n"@,
        ),
        reply(o, control, Command::Unknown, token) == ReplyView::Line(
            "ERR unknown command, try HELP\n"@,
        ),
        o.bound is Some && !force ==> reply(o, control, Command::Claim(force), token)
            == ReplyView::Line("ERR tx held by "@ + o.owner_name() + "\n"@),
        o.bound is None || force ==> {
            let in_use = (o.bound is Some && o.bound->0.claim.token == token) || exists|i: int|
                0 <= i < o.pending.len() && (#[trigger] o.pending[i]).token == token;
            &&& in_use ==> reply(o, control, Command::Claim(force), token) is Retry
            &&& !in_use ==> reply(o, control, Command::Claim(force), token) == ReplyView::Line(
                "OK token: "@ + token_text(token) + "\n"@,
            )
        },
        ({
            let stands = (o.bound is Some && o.bound->0.claim.control == control) || exists|i: int|
                0 <= i < o.pending.len() && (#[trigger] o.pending[i]).control == control;
            &&& stands ==> reply(o, control, Command::ReleaseAll, token) == ReplyView::Line(
                "OK released\n"@,
            )
            &&& !stands ==> reply(o, control, Command::ReleaseAll, token) == ReplyView::Line(
                "ERR nothing to release\n"@,
            )
        }),
        ({
            let known = (o.bound is Some && o.bound->0.claim.token == named) || exists|i: int|
                0 <= i < o.pending.len() && (#[trigger] o.pending[i]).token == named;
            &&& known ==> reply(o, control, Command::Release(Some(named)), token)
                == ReplyView::Line("OK released\n"@)
            &&& !known ==> reply(o, control, Command::Release(Some(named)), token)
                == ReplyView::Line("ERR unknown token\n"@)
        }),
        reply(o, control, Command::Release(None), token) == ReplyView::Line(
            "ERR unknown token\n"@,
        ),
{
}

/// No request connects or disconnects a client, and none gives the lock to
/// anybody: a claim adds one waiting claim of this connection, or nothing; a
/// release takes away claims; everything else changes nothing.
pub proof fn law_requests_only_touch_claims(
    o: Ownership,
    control: u64,
    request: Command,
    token: u64,
)
    ensures
        ({
            let n = requested(o, control, request, token);
            &&& n == (Ownership { bound: n.bound, pending: n.pending, ..o })
            &&& n.bound is None || n.bound == o.bound
            &&& request is Blank || request is Status || request is Help || request is Unknown
                || request == Command::Release(None) ==> n == o
            &&& request matches Command::Claim(force) ==> {
                &&& n.bound == o.bound
                &&& reply(o, control, request, token) == ReplyView::Line(
                    "OK token: "@ + token_text(token) + "\n"@,
                ) ==> n.pending == o.pending.push(Claim { token, control, force })
                &&& reply(o, control, request, token) is Retry ==> n.pending == o.pending
                &&& o.bound is Some && !force ==> n.pending == o.pending
            }
            &&& request matches Command::Release(Some(named)) ==> {
                &&& n.bound == (if o.bound is Some && o.bound->0.claim.token == named {
                    None
                } else {
                    o.bound
                })
                &&& n.pending == o.pending.filter(|c: Claim| c.token != named)
            }
            &&& request is ReleaseAll ==> {
                &&& n.bound == (if o.bound is Some && o.bound->0.claim.control == control {
                    None
                } else {
                    o.bound
                })
                &&& n.pending == o.pending.filter(|c: Claim| c.control != control)
            }
        }),
{
    reveal_strlit("OK token: ");
    reveal_strlit("ERR tx held by ");
    if request is Claim && o.claim_result(request->Claim_0, token) is Held {
        let granted = "OK token: "@ + token_text(token) + "\n"@;
        assert(granted[0] == 'O');
        assert(held_text(o)[0] == 'E');
    }
}

/// A release can be made once: made again, it is answered with an error.
pub proof fn law_a_release_can_be_made_once(o: Ownership, control: u64, named: u64, token: u64)
    requires
        o.valid(),
    ensures
        reply(
            requested(o, control, Command::Release(Some(named)), token),
            control,
            Command::Release(Some(named)),
            token,
        ) == ReplyView::Line("ERR unknown token\n"@),
        reply(
            requested(o, control, Command::ReleaseAll, token),
            control,
            Command::ReleaseAll,
            token,
        ) == ReplyView::Line("ERR nothing to release\n"@),
{
    law_release_restores_the_default(o, named);
    law_release_all_restores_the_default(o, control);
}

/// What is proved of replies is meant of their own variants and text.
pub proof fn law_replies_are_what_they_show(reply: Reply)
    ensures
        reply is Silent <==> reply@ is Silent,
        reply is Retry <==> reply@ is Retry,
        reply is Line <==> reply@ is Line,
        reply matches Reply::Line(text) ==> reply@ == ReplyView::Line(text@),
{
}

} // verus!

//! Mentions at the start of a message, and the command line addressed to us.
//!
//! Grammar, over characters:
//! - a quoted line is `"> "`, then characters other than `'\n'` and `'\r'`,
//!   then `"\n"` or `"\r\n"`; any number of them may lead a message;
//! - a user mention is `"<@"`, an optional `"!"`, decimal digits whose value
//!   fits in a `u64`, and `">"`; a channel mention is the same after `"<#"`;
//! - a command line is the quoted lines, a mention of the wanted user, blanks
//!   (spaces and tabs), a word of ASCII letters and digits, blanks, and the
//!   arguments, which run to the end of the text and hold no line break.

use vstd::prelude::*;

use crate::ids::{ChannelId, UserId};
use crate::text::{chars_of, decimal_value, is_digit, scan_digits, text_is};

verus! {

pub open spec fn is_line_break(c: char) -> bool {
    c == '\n' || c == '\r'
}

pub open spec fn is_blank(c: char) -> bool {
    c == ' ' || c == '\t'
}

pub open spec fn is_alnum(c: char) -> bool {
    ('a' <= c <= 'z') || ('A' <= c <= 'Z') || ('0' <= c <= '9')
}

pub open spec fn not_line_break(c: char) -> bool {
    !is_line_break(c)
}

/// The end of the run of characters satisfying `p` that starts at `j`.
pub open spec fn run_end(s: Seq<char>, j: int, p: spec_fn(char) -> bool) -> int
    decreases s.len() - j,
{
    if j < 0 || j >= s.len() {
        j
    } else if p(s[j]) {
        run_end(s, j + 1, p)
    } else {
        j
    }
}

pub proof fn lemma_run_end(s: Seq<char>, j: int, e: int, p: spec_fn(char) -> bool)
    requires
        0 <= j <= e <= s.len(),
        forall|k: int| j <= k < e ==> p(#[trigger] s[k]),
        e < s.len() ==> !p(s[e]),
    ensures
        run_end(s, j, p) == e,
    decreases e - j,
{
    if j < e {
        lemma_run_end(s, j + 1, e, p);
    }
}

/// Where the quoted line that starts at `i` ends, past its line ending.
pub open spec fn quote_line_end(s: Seq<char>, i: int) -> Option<int> {
    if 0 <= i && i + 1 < s.len() && s[i] == '>' && s[i + 1] == ' ' {
        let e = run_end(s, i + 2, |c: char| not_line_break(c));
        if e < s.len() && s[e] == '\n' {
            Some(e + 1)
        } else if e + 1 < s.len() && s[e] == '\r' && s[e + 1] == '\n' {
            Some(e + 2)
        } else {
            None
        }
    } else {
        None
    }
}

/// The position after the quoted lines that start at `i`.
pub open spec fn skip_quotes(s: Seq<char>, i: int) -> int
    decreases s.len() - i,
{
    match quote_line_end(s, i) {
        Some(j) => if i < j <= s.len() {
            skip_quotes(s, j)
        } else {
            i
        },
        None => i,
    }
}

/// A mention of the form `<` `marker` `!`? digits `>` at `i`: the id and the
/// position after it. The `!` is allowed where `nickname` holds.
pub open spec fn mention_at(s: Seq<char>, i: int, marker: char, nickname: bool) -> Option<(u64, int)> {
    if 0 <= i && i + 1 < s.len() && s[i] == '<' && s[i + 1] == marker {
        let j = if nickname && i + 2 < s.len() && s[i + 2] == '!' {
            i + 3
        } else {
            i + 2
        };
        let d = run_end(s, j, |c: char| is_digit(c));
        let v = decimal_value(s.subrange(j, d));
        if d > j && d < s.len() && s[d] == '>' && v <= u64::MAX {
            Some((v as u64, d + 1))
        } else {
            None
        }
    } else {
        None
    }
}

pub open spec fn user_mention_at(s: Seq<char>, i: int) -> Option<(u64, int)> {
    mention_at(s, i, '@', true)
}

pub open spec fn channel_mention_at(s: Seq<char>, i: int) -> Option<(u64, int)> {
    mention_at(s, i, '#', false)
}

/// The user mentioned right after the leading quoted lines, if not zero.
pub open spec fn direct_mention_of(s: Seq<char>) -> Option<UserId> {
    match user_mention_at(s, skip_quotes(s, 0)) {
        Some((id, _)) => if id != 0 {
            Some(id)
        } else {
            None
        },
        None => None,
    }
}

/// A command line addressed to `wanted`: its arguments and its command word.
pub open spec fn mention_command(s: Seq<char>, wanted: u64) -> Option<(Seq<char>, Seq<char>)> {
    match user_mention_at(s, skip_quotes(s, 0)) {
        Some((id, m)) => if id == wanted {
            let b1 = run_end(s, m, |c: char| is_blank(c));
            let a = run_end(s, b1, |c: char| is_alnum(c));
            let b2 = run_end(s, a, |c: char| is_blank(c));
            if run_end(s, b2, |c: char| not_line_break(c)) == s.len() {
                Some((s.subrange(b2, s.len() as int), s.subrange(b1, a)))
            } else {
                None
            }
        } else {
            None
        },
        None => None,
    }
}

fn scan_blanks(cs: &Vec<char>, from: usize) -> (r: usize)
    requires
        from <= cs@.len(),
    ensures
        r == run_end(cs@, from as int, |c: char| is_blank(c)),
        from <= r <= cs@.len(),
{
    let mut i = from;
    while i < cs.len() && (cs[i] == ' ' || cs[i] == '\t')
        invariant
            from <= i <= cs@.len(),
            forall|k: int| from <= k < i ==> is_blank(#[trigger] cs@[k]),
        decreases cs@.len() - i,
    {
        i = i + 1;
    }
    proof {
        lemma_run_end(cs@, from as int, i as int, |c: char| is_blank(c));
    }
    i
}

fn scan_alnum(cs: &Vec<char>, from: usize) -> (r: usize)
    requires
        from <= cs@.len(),
    ensures
        r == run_end(cs@, from as int, |c: char| is_alnum(c)),
        from <= r <= cs@.len(),
{
    let mut i = from;
    while i < cs.len() && (('a' <= cs[i] && cs[i] <= 'z') || ('A' <= cs[i] && cs[i] <= 'Z') || (
    '0' <= cs[i] && cs[i] <= '9'))
        invariant
            from <= i <= cs@.len(),
            forall|k: int| from <= k < i ==> is_alnum(#[trigger] cs@[k]),
        decreases cs@.len() - i,
    {
        i = i + 1;
    }
    proof {
        lemma_run_end(cs@, from as int, i as int, |c: char| is_alnum(c));
    }
    i
}

fn scan_line(cs: &Vec<char>, from: usize) -> (r: usize)
    requires
        from <= cs@.len(),
    ensures
        r == run_end(cs@, from as int, |c: char| not_line_break(c)),
        from <= r <= cs@.len(),
{
    let mut i = from;
    while i < cs.len() && cs[i] != '\n' && cs[i] != '\r'
        invariant
            from <= i <= cs@.len(),
            forall|k: int| from <= k < i ==> not_line_break(#[trigger] cs@[k]),
        decreases cs@.len() - i,
    {
        i = i + 1;
    }
    proof {
        lemma_run_end(cs@, from as int, i as int, |c: char| not_line_break(c));
    }
    i
}

fn quote_line_end_in(cs: &Vec<char>, i: usize) -> (r: Option<usize>)
    requires
        i <= cs@.len(),
    ensures
        match r {
            Some(j) => quote_line_end(cs@, i as int) == Some(j as int) && i < j <= cs@.len(),
            None => quote_line_end(cs@, i as int) is None,
        },
{
    if i < cs.len() && cs.len() - i >= 2 && cs[i] == '>' && cs[i + 1] == ' ' {
        let e = scan_line(cs, i + 2);
        if e < cs.len() && cs[e] == '\n' {
            Some(e + 1)
        } else if e < cs.len() && cs.len() - e >= 2 && cs[e] == '\r' && cs[e + 1] == '\n' {
            Some(e + 2)
        } else {
            None
        }
    } else {
        None
    }
}

fn skip_quotes_in(cs: &Vec<char>) -> (r: usize)
    ensures
        r == skip_quotes(cs@, 0),
        r <= cs@.len(),
{
    let mut i: usize = 0;
    loop
        invariant
            i <= cs@.len(),
            skip_quotes(cs@, 0) == skip_quotes(cs@, i as int),
        decreases cs@.len() - i,
    {
        match quote_line_end_in(cs, i) {
            Some(j) => {
                i = j;
            },
            None => {
                return i;
            },
        }
    }
}

fn mention_in(cs: &Vec<char>, i: usize, marker: char, nickname: bool) -> (r: Option<(u64, usize)>)
    requires
        i <= cs@.len(),
    ensures
        match r {
            Some((id, m)) => mention_at(cs@, i as int, marker, nickname) == Some((id, m as int)) && m
                <= cs@.len(),
            None => mention_at(cs@, i as int, marker, nickname) is None,
        },
{
    if i < cs.len() && cs.len() - i >= 2 && cs[i] == '<' && cs[i + 1] == marker {
        let j = if nickname && cs.len() - i >= 3 && cs[i + 2] == '!' {
            i + 3
        } else {
            i + 2
        };
        let (d, value) = scan_digits(cs, j);
        proof {
            assert forall|k: int| j <= k < d implies is_digit(#[trigger] cs@[k]) by {
                assert(cs@.subrange(j as int, d as int)[k - j] == cs@[k]);
            }
            lemma_run_end(cs@, j as int, d as int, |c: char| is_digit(c));
        }
        if d < cs.len() && cs[d] == '>' {
            match value {
                Some(v) => Some((v, d + 1)),
                None => None,
            }
        } else {
            None
        }
    } else {
        None
    }
}

/// The text of `s` from character `from` on.
fn tail_of(s: &str, from: usize) -> (r: &str)
    requires
        from <= s@.len(),
    ensures
        r@ == s@.subrange(from as int, s@.len() as int),
{
    let n = s.unicode_len();
    s.substring_char(from, n)
}

/// The leading quoted lines skipped: what follows them.
pub fn consume_quote(input: &str) -> (r: &str)
    ensures
        r@ == input@.subrange(skip_quotes(input@, 0), input@.len() as int),
{
    let cs = chars_of(input);
    let q = skip_quotes_in(&cs);
    tail_of(input, q)
}

/// A user mention at the start of `input`: what follows it, and the id.
pub fn user_mention(input: &str) -> (r: Option<(&str, u64)>)
    ensures
        match user_mention_at(input@, 0) {
            Some((id, m)) => r matches Some((rest, rid)) && rid == id && rest@ == input@.subrange(
                m,
                input@.len() as int,
            ),
            None => r is None,
        },
{
    let cs = chars_of(input);
    match mention_in(&cs, 0, '@', true) {
        Some((id, m)) => Some((tail_of(input, m), id)),
        None => None,
    }
}

/// A channel mention at the start of `input`: what follows it, and the id.
pub fn channel_mention(input: &str) -> (r: Option<(&str, u64)>)
    ensures
        match channel_mention_at(input@, 0) {
            Some((id, m)) => r matches Some((rest, rid)) && rid == id && rest@ == input@.subrange(
                m,
                input@.len() as int,
            ),
            None => r is None,
        },
{
    let cs = chars_of(input);
    match mention_in(&cs, 0, '#', false) {
        Some((id, m)) => Some((tail_of(input, m), id)),
        None => None,
    }
}

/// A user mention right after the leading quoted lines: what follows it,
/// and the id.
pub fn direct_mention(input: &str) -> (r: Option<(&str, u64)>)
    ensures
        match user_mention_at(input@, skip_quotes(input@, 0)) {
            Some((id, m)) => r matches Some((rest, rid)) && rid == id && rest@ == input@.subrange(
                m,
                input@.len() as int,
            ),
            None => r is None,
        },
{
    let cs = chars_of(input);
    let q = skip_quotes_in(&cs);
    match mention_in(&cs, q, '@', true) {
        Some((id, m)) => Some((tail_of(input, m), id)),
        None => None,
    }
}

/// The user that a message addresses by mentioning them first, after any
/// quoted lines.
pub fn parse_direct_mention(message: &str) -> (r: Option<UserId>)
    ensures
        r == direct_mention_of(message@),
{
    match direct_mention(message) {
        Some((_, id)) => if id != 0 {
            Some(id)
        } else {
            None
        },
        None => None,
    }
}

/// A command line addressed to `wanted_id`: its arguments and its command.
pub fn direct_mention_command(input: &str, wanted_id: u64) -> (r: Option<(&str, &str)>)
    ensures
        match mention_command(input@, wanted_id) {
            Some((args, command)) => r matches Some((ra, rc)) && ra@ == args && rc@ == command,
            None => r is None,
        },
{
    let cs = chars_of(input);
    let q = skip_quotes_in(&cs);
    match mention_in(&cs, q, '@', true) {
        Some((id, m)) => {
            if id != wanted_id {
                return None;
            }
            let b1 = scan_blanks(&cs, m);
            let a = scan_alnum(&cs, b1);
            let b2 = scan_blanks(&cs, a);
            let e = scan_line(&cs, b2);
            if e != cs.len() {
                return None;
            }
            let n = input.unicode_len();
            Some((input.substring_char(b2, n), input.substring_char(b1, a)))
        },
        None => None,
    }
}

/// A command addressed to the bot.
#[derive(Debug, PartialEq, Eq)]
pub enum Command {
    Help,
    Link,
    Graph(Option<ChannelId>),
    Stats,
    Dump,
    Unknown(String),
}

/// The command that a command word and its arguments stand for; `None`
/// stands for an unknown word.
pub open spec fn command_kind(word: Seq<char>) -> u8 {
    if word == "help"@ || word == "about"@ || word == "invite"@ {
        1
    } else if word == "link"@ {
        2
    } else if word == "graph"@ {
        3
    } else if word == "stats"@ {
        4
    } else if word == "dump"@ {
        5
    } else {
        0
    }
}

impl Command {
    /// The command in `message` addressed to `our_id`, if there is one.
    pub fn new_from_message(our_id: UserId, message: &str) -> (r: Option<Command>)
        ensures
            match mention_command(message@, our_id) {
                None => r is None,
                Some((args, word)) => match r {
                    Some(Command::Help) => command_kind(word) == 1,
                    Some(Command::Link) => command_kind(word) == 2,
                    Some(Command::Graph(channel)) => command_kind(word) == 3 && channel == (match channel_mention_at(args, 0) {
                        Some((id, _)) => Some(id),
                        None => None,
                    }),
                    Some(Command::Stats) => command_kind(word) == 4,
                    Some(Command::Dump) => command_kind(word) == 5,
                    Some(Command::Unknown(w)) => command_kind(word) == 0 && w@ == word,
                    None => false,
                },
            },
    {
        match direct_mention_command(message, our_id) {
            Some((args, word)) => {
                if text_is(word, "help") || text_is(word, "about") || text_is(word, "invite") {
                    Some(Command::Help)
                } else if text_is(word, "link") {
                    Some(Command::Link)
                } else if text_is(word, "graph") {
                    let channel = match channel_mention(args) {
                        Some((_, id)) => Some(id),
                        None => None,
                    };
                    Some(Command::Graph(channel))
                } else if text_is(word, "stats") {
                    Some(Command::Stats)
                } else if text_is(word, "dump") {
                    Some(Command::Dump)
                } else {
                    Some(Command::Unknown(String::from_str(word)))
                }
            },
            None => None,
        }
    }
}

} // verus!

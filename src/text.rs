//! Text helpers shared by the parsers and the label builders.

use unicode_segmentation::UnicodeSegmentation;
use vstd::prelude::*;

verus! {

/// Relies on `String::push`: appends one character.
#[verifier::external_body]
pub(crate) fn push_char(s: &mut String, c: char)
    ensures
        final(s)@ == old(s)@.push(c),
{
    s.push(c)
}

/// The characters of `s`, in order.
pub fn chars_of(s: &str) -> (r: Vec<char>)
    ensures
        r@ == s@,
{
    let mut out: Vec<char> = Vec::new();
    for c in it: s.chars()
        invariant
            it.seq() == s@,
            out@ == it.seq().subrange(0, it.index() as int),
    {
        out.push(c);
    }
    out
}

pub open spec fn is_digit(c: char) -> bool {
    '0' <= c <= '9'
}

pub open spec fn digit_value(c: char) -> nat {
    (c as int - '0' as int) as nat
}

pub open spec fn digit_char(d: nat) -> char {
    ((d + '0' as nat) as u8) as char
}

pub open spec fn all_digits(s: Seq<char>) -> bool {
    forall|i: int| 0 <= i < s.len() ==> is_digit(#[trigger] s[i])
}

/// The number that a string of decimal digits spells.
pub open spec fn decimal_value(s: Seq<char>) -> nat
    decreases s.len(),
{
    if s.len() == 0 {
        0
    } else {
        decimal_value(s.drop_last()) * 10 + digit_value(s.last())
    }
}

/// The decimal digits of `n`, without leading zeros.
pub open spec fn decimal_text(n: nat) -> Seq<char>
    decreases n,
{
    if n < 10 {
        seq![digit_char(n)]
    } else {
        decimal_text(n / 10).push(digit_char(n % 10))
    }
}

pub proof fn lemma_decimal_round_trip(n: nat)
    ensures
        all_digits(decimal_text(n)),
        decimal_text(n).len() > 0,
        decimal_value(decimal_text(n)) == n,
    decreases n,
{
    assert(digit_value(digit_char(n % 10)) == n % 10);
    if n >= 10 {
        lemma_decimal_round_trip(n / 10);
        let t = decimal_text(n);
        assert(t.drop_last() == decimal_text(n / 10));
        assert(n == (n / 10) * 10 + n % 10);
        assert(t.last() == digit_char(n % 10));
        assert(decimal_value(t) == decimal_value(t.drop_last()) * 10 + digit_value(t.last()));
        assert forall|i: int| 0 <= i < t.len() implies is_digit(#[trigger] t[i]) by {
            if i < t.len() - 1 {
                assert(t[i] == decimal_text(n / 10)[i]);
            }
        }
    } else {
        let t = decimal_text(n);
        assert(t.drop_last() =~= Seq::<char>::empty());
        assert(decimal_value(t) == decimal_value(t.drop_last()) * 10 + digit_value(t.last()));
    }
}

/// Whether `s` reads exactly `word`.
pub fn text_is(s: &str, word: &str) -> (r: bool)
    ensures
        r == (s@ == word@),
{
    let a = chars_of(s);
    let b = chars_of(word);
    if a.len() != b.len() {
        return false;
    }
    let mut i: usize = 0;
    while i < a.len()
        invariant
            a@ == s@,
            b@ == word@,
            a@.len() == b@.len(),
            i <= a@.len(),
            forall|j: int| 0 <= j < i ==> a@[j] == b@[j],
        decreases a@.len() - i,
    {
        if a[i] != b[i] {
            return false;
        }
        i = i + 1;
    }
    assert(a@ =~= b@);
    true
}

/// Reads the run of decimal digits of `cs` that starts at `from`: its end,
/// and its value where it is not empty and fits in a `u64`.
pub fn scan_digits(cs: &Vec<char>, from: usize) -> (r: (usize, Option<u64>))
    requires
        from <= cs@.len(),
    ensures
        from <= r.0 <= cs@.len(),
        all_digits(cs@.subrange(from as int, r.0 as int)),
        r.0 < cs@.len() ==> !is_digit(cs@[r.0 as int]),
        r.1 == (if r.0 > from && decimal_value(cs@.subrange(from as int, r.0 as int)) <= u64::MAX {
            Some(decimal_value(cs@.subrange(from as int, r.0 as int)) as u64)
        } else {
            None
        }),
{
    let mut i: usize = from;
    let mut value: u64 = 0;
    let mut fits = true;
    while i < cs.len() && '0' <= cs[i] && cs[i] <= '9'
        invariant
            from <= i <= cs@.len(),
            all_digits(cs@.subrange(from as int, i as int)),
            fits ==> value == decimal_value(cs@.subrange(from as int, i as int)),
            !fits ==> decimal_value(cs@.subrange(from as int, i as int)) > u64::MAX,
        decreases cs@.len() - i,
    {
        let c = cs[i];
        let d = (c as u32 - '0' as u32) as u64;
        let ghost prev = cs@.subrange(from as int, i as int);
        let ghost next = cs@.subrange(from as int, i + 1);
        assert(next.drop_last() =~= prev);
        assert(next.last() == c);
        assert(digit_value(c) == d);
        assert(decimal_value(next) == decimal_value(prev) * 10 + d);
        if fits {
            if value > (u64::MAX - d) / 10 {
                fits = false;
                assert(decimal_value(next) > u64::MAX) by (nonlinear_arith)
                    requires
                        decimal_value(next) == value * 10 + d,
                        value > (u64::MAX - d) / 10,
                        d <= 9,
                ;
            } else {
                assert(value * 10 + d <= u64::MAX) by (nonlinear_arith)
                    requires
                        value <= (u64::MAX - d) / 10,
                        d <= 9,
                ;
                value = value * 10 + d;
            }
        } else {
            assert(decimal_value(next) > u64::MAX) by (nonlinear_arith)
                requires
                    decimal_value(next) == decimal_value(prev) * 10 + d,
                    decimal_value(prev) > u64::MAX,
            ;
        }
        assert forall|j: int| 0 <= j < next.len() implies is_digit(#[trigger] next[j]) by {
            if j < prev.len() {
                assert(next[j] == prev[j]);
            }
        }
        i = i + 1;
    }
    if i > from && fits {
        (i, Some(value))
    } else {
        (i, None)
    }
}

/// Appends the decimal digits of `n` to `out`.
pub fn push_decimal(out: &mut String, n: u64)
    ensures
        final(out)@ == old(out)@ + decimal_text(n as nat),
    decreases n,
{
    if n >= 10 {
        push_decimal(out, n / 10);
    }
    let d = (n % 10) as u8;
    push_char(out, (d + 48) as char);
    assert(((d + 48) as char) == digit_char((n % 10) as nat));
}

/// Characters kept as they are in an attachment name.
pub open spec fn kept_in_attachment(c: char) -> bool {
    ('a' <= c <= 'z') || ('A' <= c <= 'Z') || ('0' <= c <= '9') || c == '.' || c == '-'
}

/// `s` with every run of other characters replaced by one `_`.
pub open spec fn sanitized(s: Seq<char>) -> Seq<char>
    decreases s.len(),
{
    if s.len() == 0 {
        s
    } else {
        let p = s.drop_last();
        let c = s.last();
        if kept_in_attachment(c) {
            sanitized(p).push(c)
        } else if p.len() > 0 && !kept_in_attachment(p.last()) {
            sanitized(p)
        } else {
            sanitized(p).push('_')
        }
    }
}

/// A name made safe to use as the base name of an attachment.
pub fn sanitize_name_for_attachment(name: &str) -> (r: String)
    ensures
        r@ == sanitized(name@),
{
    let cs = chars_of(name);
    let mut out = String::new();
    let mut prev_escaped = false;
    let mut i: usize = 0;
    while i < cs.len()
        invariant
            cs@ == name@,
            i <= cs@.len(),
            out@ == sanitized(cs@.subrange(0, i as int)),
            prev_escaped == (i > 0 && !kept_in_attachment(cs@[i - 1])),
        decreases cs@.len() - i,
    {
        let c = cs[i];
        let ghost p = cs@.subrange(0, i as int);
        assert(cs@.subrange(0, i + 1).drop_last() =~= p);
        if ('a' <= c && c <= 'z') || ('A' <= c && c <= 'Z') || ('0' <= c && c <= '9') || c == '.'
            || c == '-' {
            push_char(&mut out, c);
            prev_escaped = false;
        } else if !prev_escaped {
            push_char(&mut out, '_');
            prev_escaped = true;
        }
        i = i + 1;
    }
    assert(cs@.subrange(0, cs@.len() as int) =~= cs@);
    out
}

/// The extended grapheme clusters of a text, in order, as segmented by
/// unicode-segmentation.
pub uninterp spec fn graphemes_of(s: Seq<char>) -> Seq<Seq<char>>;

/// Relies on `UnicodeSegmentation::graphemes` (extended clusters): the
/// clusters of `s`, each as its own string.
#[verifier::external_body]
fn graphemes(s: &str) -> (r: Vec<String>)
    ensures
        r@.map_values(|g: String| g@) == graphemes_of(s@),
{
    s.graphemes(true).map(String::from).collect()
}

/// Labels hold up to nine graphemes.
pub const LABEL_LENGTH: usize = 9;

/// What a label shows of a longer name: this many graphemes and an ellipsis.
pub const LABEL_KEPT: usize = 6;

/// The label for a name whose grapheme clusters are `gs`: the name itself if
/// it has at most nine, else its first six followed by `...`.
pub open spec fn label_text(name: Seq<char>, gs: Seq<Seq<char>>) -> Seq<char> {
    if gs.len() > LABEL_LENGTH {
        gs.take(LABEL_KEPT as int).flatten() + "..."@
    } else {
        name
    }
}

/// The label for `name`, given its grapheme clusters.
pub fn label_from_graphemes(name: String, graphemes: &Vec<String>) -> (r: String)
    ensures
        r@ == label_text(name@, graphemes@.map_values(|g: String| g@)),
{
    let ghost gs = graphemes@.map_values(|g: String| g@);
    if graphemes.len() <= LABEL_LENGTH {
        return name;
    }
    let mut out = String::new();
    let mut i: usize = 0;
    while i < LABEL_KEPT
        invariant
            graphemes@.len() > LABEL_LENGTH,
            gs == graphemes@.map_values(|g: String| g@),
            i <= LABEL_KEPT,
            out@ == gs.take(i as int).flatten(),
        decreases LABEL_KEPT - i,
    {
        let ghost before = out@;
        out.append(graphemes[i].as_str());
        proof {
            assert(gs.take(i + 1) =~= gs.take(i as int).push(gs[i as int]));
            gs.take(i as int).lemma_flatten_push(gs[i as int]);
        }
        i = i + 1;
    }
    out.append("...");
    out
}

/// The label drawn for a user: long names are cut to six graphemes and an
/// ellipsis.
pub fn get_label(name: String) -> (r: String)
    ensures
        r@ == label_text(name@, graphemes_of(name@)),
{
    let gs = graphemes(name.as_str());
    label_from_graphemes(name, &gs)
}

/// The decimal digits of `n`, with leading zeros up to four digits.
pub open spec fn padded4(n: nat) -> Seq<char> {
    Seq::new((if decimal_text(n).len() < 4 { 4 - decimal_text(n).len() } else { 0 }) as nat, |i: int| '0')
        + decimal_text(n)
}

/// How a user is shown: `"nickname" (name#0042)`, the name standing in for
/// a missing nickname.
pub open spec fn display_name_text(nick: Option<Seq<char>>, name: Seq<char>, discriminator: u16) -> Seq<char> {
    let shown = match nick {
        Some(n) => n,
        None => name,
    };
    seq!['"'] + shown + "\" ("@ + name + seq!['#'] + padded4(discriminator as nat) + seq![')']
}

/// How a user is shown in the debug log.
pub fn display_name(nick: Option<&str>, name: &str, discriminator: u16) -> (r: String)
    ensures
        r@ == display_name_text(
            match nick {
                Some(n) => Some(n@),
                None => None,
            },
            name@,
            discriminator,
        ),
{
    let mut digits = String::new();
    push_decimal(&mut digits, discriminator as u64);
    let len = digits.as_str().unicode_len();
    let mut out = String::new();
    push_char(&mut out, '"');
    match nick {
        Some(n) => out.append(n),
        None => out.append(name),
    }
    out.append("\" (");
    out.append(name);
    push_char(&mut out, '#');
    let ghost before = out@;
    let pad: usize = if len < 4 { 4 - len } else { 0 };
    let mut k: usize = 0;
    while k < pad
        invariant
            k <= pad,
            out@ == before + Seq::new(k as nat, |i: int| '0'),
        decreases pad - k,
    {
        push_char(&mut out, '0');
        assert(Seq::new((k + 1) as nat, |i: int| '0') =~= Seq::new(k as nat, |i: int| '0').push('0'));
        k = k + 1;
    }
    out.append(digits.as_str());
    push_char(&mut out, ')');
    out
}

} // verus!

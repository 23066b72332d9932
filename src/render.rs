//! What a drawn guild graph shows: pairs of users joined by a strong enough
//! relationship, how heavily each user is connected, and the colours and
//! labels of the drawing. Laying it out is left to an outside program.

use vstd::prelude::*;

use crate::assoc::{assoc_map, assoc_unique, lemma_assoc_contains, lemma_assoc_push, lemma_assoc_update, lemma_assoc_value};
use crate::entities::CachedRole;
use crate::graph::{
    at_least, edge_key, edge_map, keys_unique, lemma_edge_map_contains, sat_add, strength_in,
    strengthened, Edge, EdgeKey, UserRelationshipGraphMap,
};
use crate::ids::{RoleId, UserId};
use crate::text::{chars_of, push_char, text_is};

verus! {

#[derive(Debug, Clone, Copy, PartialEq, Eq, Structural)]
pub enum ColorScheme {
    Light,
    Dark,
}

/// Pairs whose summed strength is below this (1.0) are not drawn.
pub const EDGE_DRAW_THRESHOLD: u64 = 10000;

pub const BG_LIGHT: u32 = 0xFFFFFFFF;

pub const FG_LIGHT: u32 = 0x060607FF;

pub const BG_DARK: u32 = 0x313338FF;

pub const FG_DARK: u32 = 0xF2F3F5FF;

/// How much darker the drawing of a user who left the guild is.
pub const DEPARTED_DIMMING: u32 = 200;

/// Text on a fill brighter than this (in thousandths) is drawn dark.
pub const LUMA_LIMIT_MILLI: u32 = 186000;

pub open spec fn reversed(k: EdgeKey) -> EdgeKey {
    (k.1, k.0)
}

/// The directed edges of `m` folded into unordered pairs, the lower id
/// first, with the strengths of both directions summed; self loops dropped.
pub open spec fn collapsed(m: Map<EdgeKey, u64>) -> Map<EdgeKey, u64> {
    Map::new(
        |k: EdgeKey| k.0 < k.1 && (m.contains_key(k) || m.contains_key(reversed(k))),
        |k: EdgeKey| sat_add(strength_in(m, k), strength_in(m, reversed(k))),
    )
}

pub open spec fn pair_key(e: Edge) -> EdgeKey {
    if e.source < e.target {
        (e.source, e.target)
    } else {
        (e.target, e.source)
    }
}

proof fn lemma_collapse_step(m: Map<EdgeKey, u64>, e: Edge)
    requires
        !m.contains_key(edge_key(e)),
    ensures
        collapsed(m.insert(edge_key(e), e.weight)) == (if e.source != e.target {
            strengthened(collapsed(m), pair_key(e), e.weight)
        } else {
            collapsed(m)
        }),
{
    let m2 = m.insert(edge_key(e), e.weight);
    if e.source != e.target {
        let target = strengthened(collapsed(m), pair_key(e), e.weight);
        assert forall|k: EdgeKey| #[trigger] collapsed(m2).contains_key(k) == target.contains_key(k)
            && (collapsed(m2).contains_key(k) ==> collapsed(m2)[k] == target[k]) by {
            if k == pair_key(e) {
                assert(strength_in(m2, k) + strength_in(m2, reversed(k)) == strength_in(m, k) + strength_in(
                    m,
                    reversed(k),
                ) + e.weight);
            }
        }
        assert(collapsed(m2) =~= target);
    } else {
        assert(collapsed(m2) =~= collapsed(m));
    }
}

/// The pairs of users to draw: both directions summed, self loops dropped,
/// and only pairs of strength at least 1.0 kept.
pub fn undirected_edges(graph: &UserRelationshipGraphMap) -> (r: UserRelationshipGraphMap)
    requires
        graph.wf(),
    ensures
        r.wf(),
        r@ == at_least(collapsed(graph@), EDGE_DRAW_THRESHOLD),
{
    let edges = graph.edges();
    let mut acc = UserRelationshipGraphMap::new();
    let n = edges.len();
    let mut i: usize = 0;
    assert(collapsed(edge_map(edges@.subrange(0, 0))) =~= Map::<EdgeKey, u64>::empty());
    while i < n
        invariant
            n == edges@.len(),
            edge_map(edges@) == graph@,
            keys_unique(edges@),
            forall|m: int| 0 <= m < n ==> (#[trigger] edges@[m]).weight > 0,
            i <= n,
            acc.wf(),
            acc@ == collapsed(edge_map(edges@.subrange(0, i as int))),
        decreases n - i,
    {
        let e = edges[i];
        let ghost p = edges@.subrange(0, i as int);
        assert(edges@.subrange(0, i + 1) =~= p.push(e));
        assert(p.push(e).drop_last() =~= p);
        assert forall|j: int| 0 <= j < p.len() implies edge_key(#[trigger] p[j]) != edge_key(e) by {
            assert(p[j] == edges@[j]);
        }
        proof {
            lemma_edge_map_contains(p, edge_key(e));
            lemma_collapse_step(edge_map(p), e);
        }
        if e.source < e.target {
            acc.add_strength(e.source, e.target, e.weight);
        } else if e.source > e.target {
            acc.add_strength(e.target, e.source, e.weight);
        }
        i = i + 1;
    }
    assert(edges@.subrange(0, n as int) =~= edges@);
    acc.retain_at_least(EDGE_DRAW_THRESHOLD);
    acc
}

/// Each user's total: the strengths of the pairs that include them, summed.
pub open spec fn user_totals(es: Seq<Edge>) -> Map<UserId, u64>
    decreases es.len(),
{
    if es.len() == 0 {
        Map::empty()
    } else {
        let e = es.last();
        let m = user_totals(es.drop_last());
        let m1 = m.insert(e.source, sat_add(total_in(m, e.source), e.weight));
        m1.insert(e.target, sat_add(total_in(m1, e.target), e.weight))
    }
}

pub open spec fn total_in(m: Map<UserId, u64>, u: UserId) -> u64 {
    if m.contains_key(u) {
        m[u]
    } else {
        0
    }
}

fn add_total(acc: &mut Vec<(UserId, u64)>, u: UserId, w: u64)
    requires
        assoc_unique(old(acc)@),
    ensures
        assoc_unique(final(acc)@),
        assoc_map(final(acc)@) == assoc_map(old(acc)@).insert(u, sat_add(total_in(assoc_map(old(acc)@), u), w)),
{
    let ghost v0 = acc@;
    let n = acc.len();
    let mut i: usize = 0;
    while i < n
        invariant
            n == acc@.len(),
            acc@ == v0,
            v0 == old(acc)@,
            assoc_unique(v0),
            i <= n,
            forall|m: int| 0 <= m < i ==> (#[trigger] acc@[m]).0 != u,
        decreases n - i,
    {
        if acc[i].0 == u {
            let old_total = acc[i].1;
            proof {
                lemma_assoc_value(v0, i as int);
            }
            let nv = old_total.saturating_add(w);
            acc.set(i, (u, nv));
            proof {
                lemma_assoc_update(v0, i as int, nv);
                assert(acc@ =~= v0.update(i as int, (v0[i as int].0, nv)));
            }
            return;
        }
        i = i + 1;
    }
    proof {
        lemma_assoc_contains(v0, u);
        lemma_assoc_push(v0, u, w);
    }
    acc.push((u, w));
    assert(sat_add(0, w) == w);
}

/// Each user's total over the pairs `edges`, one entry per user.
pub fn user_weights(edges: &Vec<Edge>) -> (r: Vec<(UserId, u64)>)
    ensures
        assoc_unique(r@),
        assoc_map(r@) == user_totals(edges@),
{
    let mut acc: Vec<(UserId, u64)> = Vec::new();
    let n = edges.len();
    let mut i: usize = 0;
    assert(edges@.subrange(0, 0) =~= Seq::<Edge>::empty());
    assert(assoc_map(acc@) =~= Map::<UserId, u64>::empty());
    while i < n
        invariant
            n == edges@.len(),
            i <= n,
            assoc_unique(acc@),
            assoc_map(acc@) == user_totals(edges@.subrange(0, i as int)),
        decreases n - i,
    {
        let e = edges[i];
        assert(edges@.subrange(0, i + 1).drop_last() =~= edges@.subrange(0, i as int));
        add_total(&mut acc, e.source, e.weight);
        add_total(&mut acc, e.target, e.weight);
        i = i + 1;
    }
    assert(edges@.subrange(0, n as int) =~= edges@);
    acc
}

pub open spec fn both_shown(e: Edge, users: Seq<UserId>) -> bool {
    users.contains(e.source) && users.contains(e.target)
}

/// The pairs of `edges` whose two users are both among `users`.
pub fn edges_among(edges: &Vec<Edge>, users: &Vec<UserId>) -> (r: Vec<Edge>)
    ensures
        r@ == edges@.filter(|e: Edge| both_shown(e, users@)),
{
    let mut out: Vec<Edge> = Vec::new();
    let n = edges.len();
    let mut i: usize = 0;
    proof {
        reveal(Seq::filter);
        assert(edges@.subrange(0, 0) =~= Seq::<Edge>::empty());
    }
    while i < n
        invariant
            n == edges@.len(),
            i <= n,
            out@ == edges@.subrange(0, i as int).filter(|e: Edge| both_shown(e, users@)),
        decreases n - i,
    {
        let e = edges[i];
        proof {
            reveal(Seq::filter);
            assert(edges@.subrange(0, i + 1).drop_last() =~= edges@.subrange(0, i as int));
        }
        if contains_id(users, e.source) && contains_id(users, e.target) {
            out.push(e);
        }
        i = i + 1;
    }
    assert(edges@.subrange(0, n as int) =~= edges@);
    out
}

fn contains_id(ids: &Vec<u64>, id: u64) -> (r: bool)
    ensures
        r == ids@.contains(id),
{
    let n = ids.len();
    let mut i: usize = 0;
    while i < n
        invariant
            n == ids@.len(),
            i <= n,
            forall|m: int| 0 <= m < i ==> ids@[m] != id,
        decreases n - i,
    {
        if ids[i] == id {
            assert(ids@[i as int] == id);
            return true;
        }
        i = i + 1;
    }
    false
}

/// A role that colours a member: one they hold, with a colour.
pub open spec fn colours(role: CachedRole, member_roles: Seq<RoleId>) -> bool {
    role.color != 0 && member_roles.contains(role.id)
}

/// The colour of a member's highest coloured role, if they have one.
pub fn member_color(roles: &Vec<CachedRole>, member_roles: &Vec<RoleId>) -> (r: Option<u32>)
    ensures
        match r {
            Some(c) => exists|i: int|
                0 <= i < roles@.len() && colours(#[trigger] roles@[i], member_roles@) && roles@[i].color == c
                    && forall|j: int| 0 <= j < roles@.len() && colours(#[trigger] roles@[j], member_roles@)
                    ==> roles@[j].position <= roles@[i].position,
            None => forall|j: int| 0 <= j < roles@.len() ==> !colours(#[trigger] roles@[j], member_roles@),
        },
{
    let mut best: Option<usize> = None;
    let n = roles.len();
    let mut i: usize = 0;
    while i < n
        invariant
            n == roles@.len(),
            i <= n,
            match best {
                Some(b) => b < i && colours(roles@[b as int], member_roles@) && forall|j: int|
                    0 <= j < i && colours(#[trigger] roles@[j], member_roles@) ==> roles@[j].position
                        <= roles@[b as int].position,
                None => forall|j: int| 0 <= j < i ==> !colours(#[trigger] roles@[j], member_roles@),
            },
        decreases n - i,
    {
        let role = &roles[i];
        if role.color != 0 && contains_id(member_roles, role.id) {
            match best {
                Some(b) => {
                    if role.position > roles[b].position {
                        best = Some(i);
                    }
                },
                None => {
                    best = Some(i);
                },
            }
        }
        i = i + 1;
    }
    match best {
        Some(b) => Some(roles[b].color),
        None => None,
    }
}

/// The red, green and blue bytes of an RGBA colour.
pub open spec fn rgb_of(color: u32) -> (nat, nat, nat) {
    (((color / 16777216) % 256) as nat, ((color / 65536) % 256) as nat, ((color / 256) % 256) as nat)
}

/// Perceived brightness in thousandths: 299 r + 587 g + 114 b.
pub open spec fn luma_milli_of(color: u32) -> nat {
    299 * rgb_of(color).0 + 587 * rgb_of(color).1 + 114 * rgb_of(color).2
}

/// The perceived brightness of an RGBA colour, in thousandths.
pub fn calculate_luma(color: u32) -> (r: u32)
    ensures
        r == luma_milli_of(color),
{
    let red = (color / 16777216) % 256;
    let green = (color / 65536) % 256;
    let blue = (color / 256) % 256;
    299 * red + 587 * green + 114 * blue
}

/// The colours of a drawn user.
#[derive(Debug, Clone, Copy, PartialEq, Eq, Structural)]
pub struct NodeStyle {
    pub color: u32,
    pub fillcolor: u32,
    pub fontcolor: u32,
    pub peripheries: u8,
    /// Whether the user asked for the drawing.
    pub highlighted: bool,
}

pub open spec fn scheme_colors(scheme: ColorScheme) -> (u32, u32) {
    match scheme {
        ColorScheme::Light => (BG_LIGHT, FG_LIGHT),
        ColorScheme::Dark => (BG_DARK, FG_DARK),
    }
}

/// The background and foreground colours of a scheme.
pub fn background_and_foreground(scheme: ColorScheme) -> (r: (u32, u32))
    ensures
        r == scheme_colors(scheme),
{
    match scheme {
        ColorScheme::Light => (BG_LIGHT, FG_LIGHT),
        ColorScheme::Dark => (BG_DARK, FG_DARK),
    }
}

pub open spec fn node_style_of(
    scheme: ColorScheme,
    role_color: Option<u32>,
    is_member: bool,
    is_requester: bool,
) -> NodeStyle {
    let (bg, fg) = scheme_colors(scheme);
    let base = match role_color {
        Some(c) => ((c % 16777216) * 256 + 255) as u32,
        None => fg,
    };
    let color = if is_member {
        base
    } else {
        (base - DEPARTED_DIMMING) as u32
    };
    let font = if is_member {
        fg
    } else {
        (fg - DEPARTED_DIMMING) as u32
    };
    if is_requester {
        NodeStyle {
            color,
            fillcolor: color,
            fontcolor: if luma_milli_of(color) > LUMA_LIMIT_MILLI {
                FG_LIGHT
            } else {
                FG_DARK
            },
            peripheries: 2,
            highlighted: true,
        }
    } else {
        NodeStyle { color, fillcolor: bg, fontcolor: font, peripheries: 1, highlighted: false }
    }
}

/// The colours of a drawn user: their role colour if any, dimmed if they
/// left, and inverted with a double outline for the user who asked.
pub fn node_style(scheme: ColorScheme, role_color: Option<u32>, is_member: bool, is_requester: bool) -> (r: NodeStyle)
    ensures
        r == node_style_of(scheme, role_color, is_member, is_requester),
{
    let (bg, fg) = background_and_foreground(scheme);
    let base = match role_color {
        Some(c) => (c % 16777216) * 256 + 255,
        None => fg,
    };
    let color = if is_member {
        base
    } else {
        base - DEPARTED_DIMMING
    };
    let font = if is_member {
        fg
    } else {
        fg - DEPARTED_DIMMING
    };
    if is_requester {
        let fontcolor = if calculate_luma(color) > LUMA_LIMIT_MILLI {
            FG_LIGHT
        } else {
            FG_DARK
        };
        NodeStyle { color, fillcolor: color, fontcolor, peripheries: 2, highlighted: true }
    } else {
        NodeStyle { color, fillcolor: bg, fontcolor: font, peripheries: 1, highlighted: false }
    }
}

/// The colour of a drawn pair: dimmed unless both users are members.
pub fn edge_color(scheme: ColorScheme, both_members: bool) -> (r: u32)
    ensures
        r == (if both_members {
            scheme_colors(scheme).1
        } else {
            (scheme_colors(scheme).1 - DEPARTED_DIMMING) as u32
        }),
{
    let (_, fg) = background_and_foreground(scheme);
    if both_members {
        fg
    } else {
        fg - DEPARTED_DIMMING
    }
}

/// How a character of a label is written in the drawing.
pub open spec fn escaped_char(c: char) -> Seq<char> {
    if c == '&' {
        seq!['&', 'a', 'm', 'p', ';']
    } else if c == '"' {
        seq!['&', 'q', 'u', 'o', 't', ';']
    } else if c == '\'' {
        seq!['&', '#', 'x', '2', '7', ';']
    } else if c == '<' {
        seq!['&', 'l', 't', ';']
    } else if c == '>' {
        seq!['&', 'g', 't', ';']
    } else if c == '\\' {
        seq!['\\', '\\']
    } else {
        seq![c]
    }
}

pub open spec fn escaped(s: Seq<char>) -> Seq<char>
    decreases s.len(),
{
    if s.len() == 0 {
        s
    } else {
        escaped(s.drop_last()) + escaped_char(s.last())
    }
}

fn push_all(out: &mut String, cs: &[char])
    ensures
        final(out)@ == old(out)@ + cs@,
{
    let mut i: usize = 0;
    while i < cs.len()
        invariant
            i <= cs@.len(),
            out@ == old(out)@ + cs@.subrange(0, i as int),
        decreases cs@.len() - i,
    {
        push_char(out, cs[i]);
        assert(cs@.subrange(0, i + 1) =~= cs@.subrange(0, i as int).push(cs@[i as int]));
        i = i + 1;
    }
    assert(cs@.subrange(0, cs@.len() as int) =~= cs@);
}

/// A label made safe for the drawing's markup.
pub fn escape_label(label: &str) -> (r: String)
    ensures
        r@ == escaped(label@),
{
    let cs = chars_of(label);
    let mut out = String::new();
    let mut i: usize = 0;
    while i < cs.len()
        invariant
            cs@ == label@,
            i <= cs@.len(),
            out@ == escaped(cs@.subrange(0, i as int)),
        decreases cs@.len() - i,
    {
        let c = cs[i];
        assert(cs@.subrange(0, i + 1).drop_last() =~= cs@.subrange(0, i as int));
        if c == '&' {
            push_all(&mut out, &['&', 'a', 'm', 'p', ';']);
        } else if c == '"' {
            push_all(&mut out, &['&', 'q', 'u', 'o', 't', ';']);
        } else if c == '\'' {
            push_all(&mut out, &['&', '#', 'x', '2', '7', ';']);
        } else if c == '<' {
            push_all(&mut out, &['&', 'l', 't', ';']);
        } else if c == '>' {
            push_all(&mut out, &['&', 'g', 't', ';']);
        } else if c == '\\' {
            push_all(&mut out, &['\\', '\\']);
        } else {
            push_char(&mut out, c);
        }
        i = i + 1;
    }
    assert(cs@.subrange(0, cs@.len() as int) =~= cs@);
    out
}

/// A graph style that was asked for by name but is not known.
#[derive(Debug, Clone, Copy, PartialEq, Eq, Structural)]
pub struct UnknownStyle;

/// The style that the words after a text `graph` command ask for: the
/// scheme (dark when absent), then `transparent` or anything else.
pub open spec fn style_from_words(first: Option<Seq<char>>, second: Option<Seq<char>>) -> Result<(ColorScheme, bool), UnknownStyle> {
    let transparent = second == Some("transparent"@);
    match first {
        None => Ok((ColorScheme::Dark, transparent)),
        Some(w) => if w == "light"@ {
            Ok((ColorScheme::Light, transparent))
        } else if w == "dark"@ {
            Ok((ColorScheme::Dark, transparent))
        } else {
            Err(UnknownStyle)
        },
    }
}

pub open spec fn opt_view(w: Option<&str>) -> Option<Seq<char>> {
    match w {
        Some(s) => Some(s@),
        None => None,
    }
}

/// The colour scheme and transparency of a graph asked for in text.
pub fn graph_style_from_words(first: Option<&str>, second: Option<&str>) -> (r: Result<(ColorScheme, bool), UnknownStyle>)
    ensures
        r == style_from_words(opt_view(first), opt_view(second)),
{
    let transparent = match second {
        Some(w) => text_is(w, "transparent"),
        None => false,
    };
    match first {
        None => Ok((ColorScheme::Dark, transparent)),
        Some(w) => if text_is(w, "light") {
            Ok((ColorScheme::Light, transparent))
        } else if text_is(w, "dark") {
            Ok((ColorScheme::Dark, transparent))
        } else {
            Err(UnknownStyle)
        },
    }
}

/// The style that the `style` option of a slash `graph` command asks for.
pub open spec fn style_from_option(style: Option<Seq<char>>) -> Result<(ColorScheme, bool), UnknownStyle> {
    match style {
        None => Ok((ColorScheme::Dark, false)),
        Some(s) => if s == "light"@ {
            Ok((ColorScheme::Light, false))
        } else if s == "dark"@ {
            Ok((ColorScheme::Dark, false))
        } else if s == "transparent light"@ {
            Ok((ColorScheme::Light, true))
        } else if s == "transparent dark"@ {
            Ok((ColorScheme::Dark, true))
        } else {
            Err(UnknownStyle)
        },
    }
}

/// The colour scheme and transparency of a graph asked for with a slash
/// command.
pub fn graph_style_from_option(style: Option<&str>) -> (r: Result<(ColorScheme, bool), UnknownStyle>)
    ensures
        r == style_from_option(opt_view(style)),
{
    match style {
        None => Ok((ColorScheme::Dark, false)),
        Some(s) => if text_is(s, "light") {
            Ok((ColorScheme::Light, false))
        } else if text_is(s, "dark") {
            Ok((ColorScheme::Dark, false))
        } else if text_is(s, "transparent light") {
            Ok((ColorScheme::Light, true))
        } else if text_is(s, "transparent dark") {
            Ok((ColorScheme::Dark, true))
        } else {
            Err(UnknownStyle)
        },
    }
}

} // verus!

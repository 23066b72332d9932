use socialgraph::entities::CachedRole;
use socialgraph::graph::{Edge, UserRelationshipGraphMap};
use socialgraph::render::{
    background_and_foreground, calculate_luma, graph_style_from_option, graph_style_from_words, UnknownStyle, edge_color, edges_among, escape_label, member_color, node_style,
    undirected_edges, user_weights, ColorScheme, BG_DARK, FG_DARK, FG_LIGHT,
};
use socialgraph::stats::{graph_counter_column, CommandType};

#[test]
fn undirected_pairs_are_summed_and_thresholded() {
    let mut g = UserRelationshipGraphMap::new();
    g.set_strength(1, 2, 6000);
    g.set_strength(2, 1, 5000);
    g.set_strength(3, 1, 9999);
    g.set_strength(4, 4, 50000);
    g.set_strength(5, 6, 10000);
    let u = undirected_edges(&g);
    assert_eq!(u.get(1, 2), Some(11000));
    assert_eq!(u.get(2, 1), None);
    assert_eq!(u.get(1, 3), None);
    assert_eq!(u.get(4, 4), None);
    assert_eq!(u.get(5, 6), Some(10000));
    assert_eq!(u.len(), 2);
}

#[test]
fn user_weights_sum_both_ends() {
    let edges = vec![
        Edge { source: 1, target: 2, weight: 10 },
        Edge { source: 1, target: 3, weight: 5 },
    ];
    let mut w = user_weights(&edges);
    w.sort();
    assert_eq!(w, vec![(1, 15), (2, 10), (3, 5)]);
    let shown = edges_among(&edges, &vec![1, 2]);
    assert_eq!(shown, vec![Edge { source: 1, target: 2, weight: 10 }]);
}

#[test]
fn highest_coloured_role_wins() {
    let role = |id: u64, color: u32, position: i64| CachedRole {
        id,
        name: String::new(),
        color,
        position,
        permissions: 0,
    };
    let roles = vec![role(1, 0x111111, 1), role(2, 0x222222, 5), role(3, 0, 9), role(4, 0x444444, 7)];
    assert_eq!(member_color(&roles, &vec![1, 2, 3]), Some(0x222222));
    assert_eq!(member_color(&roles, &vec![1, 2, 3, 4]), Some(0x444444));
    assert_eq!(member_color(&roles, &vec![3]), None);
}

#[test]
fn luma_matches_the_weighted_sum() {
    assert_eq!(calculate_luma(0xFFFFFFFF), 255000);
    assert_eq!(calculate_luma(0x000000FF), 0);
    let c: u32 = 0x336699FF;
    let expected = 0.299 * 0x33 as f64 + 0.587 * 0x66 as f64 + 0.114 * 0x99 as f64;
    assert!((calculate_luma(c) as f64 / 1000.0 - expected).abs() < 1e-9);
}

#[test]
fn node_and_edge_colours() {
    assert_eq!(background_and_foreground(ColorScheme::Dark), (BG_DARK, FG_DARK));
    let plain = node_style(ColorScheme::Dark, None, true, false);
    assert_eq!((plain.color, plain.fillcolor, plain.fontcolor, plain.peripheries), (FG_DARK, BG_DARK, FG_DARK, 1));
    let departed = node_style(ColorScheme::Dark, Some(0x123456), false, false);
    assert_eq!(departed.color, 0x123456FF - 200);
    assert_eq!(departed.fontcolor, FG_DARK - 200);
    let me = node_style(ColorScheme::Light, Some(0xFFFFFF), true, true);
    assert_eq!((me.fillcolor, me.fontcolor, me.peripheries, me.highlighted), (0xFFFFFFFF, FG_LIGHT, 2, true));
    let me_dark = node_style(ColorScheme::Light, Some(0x101010), true, true);
    assert_eq!(me_dark.fontcolor, FG_DARK);
    assert_eq!(edge_color(ColorScheme::Light, false), FG_LIGHT - 200);
}

#[test]
fn labels_are_escaped() {
    assert_eq!(escape_label("a&b\"c'd<e>f\\g"), "a&amp;b&quot;c&#x27;d&lt;e&gt;f\\\\g");
    assert_eq!(escape_label("plain"), "plain");
}

#[test]
fn counter_columns() {
    assert_eq!(graph_counter_column(CommandType::Chat), "chat_graphs");
    assert_eq!(graph_counter_column(CommandType::Slash), "slash_graphs");
}

#[test]
fn graph_styles() {
    assert_eq!(graph_style_from_words(None, None), Ok((ColorScheme::Dark, false)));
    assert_eq!(graph_style_from_words(Some("light"), Some("transparent")), Ok((ColorScheme::Light, true)));
    assert_eq!(graph_style_from_words(Some("dark"), Some("opaque")), Ok((ColorScheme::Dark, false)));
    assert_eq!(graph_style_from_words(Some("pink"), None), Err(UnknownStyle));
    assert_eq!(graph_style_from_option(Some("transparent dark")), Ok((ColorScheme::Dark, true)));
    assert_eq!(graph_style_from_option(Some("light")), Ok((ColorScheme::Light, false)));
    assert_eq!(graph_style_from_option(None), Ok((ColorScheme::Dark, false)));
    assert_eq!(graph_style_from_option(Some("neon")), Err(UnknownStyle));
}

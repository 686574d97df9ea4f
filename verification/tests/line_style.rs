use ads::exercises::line_style::{
    graph_output_line_style, province_output_line_style, social_output_line_style, LineStyle,
};

#[test]
fn graph_lines() {
    assert_eq!(graph_output_line_style("Graph Analysis"), LineStyle::Heading);
    assert_eq!(graph_output_line_style("Sample Loaded"), LineStyle::Loaded);
    assert_eq!(graph_output_line_style("  Cycle Detection: No cycle found"), LineStyle::Clear);
    assert_eq!(graph_output_line_style("Cycle Detection: cycle found"), LineStyle::Alarm);
    assert_eq!(graph_output_line_style("  Components:"), LineStyle::Section);
    assert_eq!(graph_output_line_style("Cycle-causing edges:"), LineStyle::Danger);
    assert_eq!(graph_output_line_style("  C1 (3 members): 1 2 3"), LineStyle::Member(0));
    assert_eq!(graph_output_line_style("  C6 (1 members): 9"), LineStyle::Member(1));
    assert_eq!(graph_output_line_style("  C0 (1 members): 9"), LineStyle::Member(0));
    assert_eq!(graph_output_line_style("  3 - 4 (closes a cycle)"), LineStyle::Detail);
    assert_eq!(graph_output_line_style("Nodes: 5"), LineStyle::Summary);
    assert_eq!(graph_output_line_style("Tip: try SAMPLE"), LineStyle::Tip);
    assert_eq!(graph_output_line_style("  other"), LineStyle::Indented);
    assert_eq!(graph_output_line_style("other"), LineStyle::Plain);
}

#[test]
fn grouped_lines() {
    assert_eq!(social_output_line_style("Groups:"), LineStyle::Section);
    assert_eq!(social_output_line_style("  G12 (2 users): a b"), LineStyle::Member(3));
    assert_eq!(social_output_line_style("Total friend groups: 2"), LineStyle::Summary);
    assert_eq!(social_output_line_style("Expected: 2"), LineStyle::Expected);
    assert_eq!(
        social_output_line_style("  G99999999999999999999999 (1 users)"),
        LineStyle::Member(0)
    );
    assert_eq!(province_output_line_style("  Provinces:"), LineStyle::Section);
    assert_eq!(province_output_line_style("  P2 (4 cities)"), LineStyle::Member(1));
    assert_eq!(province_output_line_style("Cities: 4"), LineStyle::Summary);
    assert_eq!(province_output_line_style("Province Analysis"), LineStyle::Heading);
    assert_eq!(province_output_line_style("P2 without the word"), LineStyle::Plain);
}

use md_parser::renderer::render_html;

#[test]
fn render_plan() {
    let markdown = r"
## Title

I'm a **paragraph**.
";
    let html = render_html(markdown);
    assert_eq!(html, "<h2>Title</h2><p>I'm a <strong>paragraph</strong>.</p>");
}

#[test]
fn empty_input_renders_empty() {
    assert_eq!(render_html(""), "");
}

#[test]
fn blank_lines_render_empty() {
    assert_eq!(render_html("\n\n\n"), "");
}

#[test]
fn unstructured_text_is_one_paragraph() {
    assert_eq!(render_html("hello world."), "<p>hello world.</p>");
}

#[test]
fn heading_levels_one_to_six() {
    assert_eq!(render_html("# x"), "<h1>x</h1>");
    assert_eq!(render_html("## x"), "<h2>x</h2>");
    assert_eq!(render_html("### x"), "<h3>x</h3>");
    assert_eq!(render_html("#### x"), "<h4>x</h4>");
    assert_eq!(render_html("##### x"), "<h5>x</h5>");
    assert_eq!(render_html("###### x"), "<h6>x</h6>");
}

#[test]
fn seven_hashes_degrade_to_text() {
    assert_eq!(render_html("####### x"), "<p>####### x</p>");
}

#[test]
fn hash_without_space_degrades_to_text() {
    assert_eq!(render_html("#x"), "<p>#x</p>");
}

#[test]
fn mid_line_hash_is_literal_text() {
    assert_eq!(render_html("a # b"), "<p>a # b</p>");
}

#[test]
fn hash_inside_text_is_literal() {
    assert_eq!(render_html("a#b"), "<p>a#b</p>");
}

#[test]
fn heading_runs_to_end_of_line() {
    assert_eq!(render_html("# a\nb"), "<h1>a</h1><p>b</p>");
}

#[test]
fn link_round_trip() {
    assert_eq!(render_html("[a](b)"), "<p><a href=\"b\">a</a></p>");
}

#[test]
fn incomplete_link_degrades() {
    assert_eq!(render_html("[oops"), "<p>[oops</p>");
}

#[test]
fn link_missing_parens_degrades() {
    assert_eq!(render_html("[a]b"), "<p>[a]b</p>");
}

#[test]
fn empty_link_parts_render() {
    assert_eq!(render_html("[]()"), "<p><a href=\"\"></a></p>");
}

#[test]
fn strong_inside_link_text() {
    assert_eq!(
        render_html("[**x**](u)"),
        "<p><a href=\"u\"><strong>x</strong></a></p>"
    );
}

#[test]
fn link_inside_heading() {
    assert_eq!(render_html("# [a](b)"), "<h1><a href=\"b\">a</a></h1>");
}

#[test]
fn strong_emphasis_pairing() {
    assert_eq!(render_html("**x**"), "<p><strong>x</strong></p>");
}

#[test]
fn strong_body_may_hold_a_hash() {
    assert_eq!(render_html("**a#b**"), "<p><strong>a#b</strong></p>");
}

#[test]
fn link_url_may_hold_a_hash() {
    assert_eq!(render_html("[a](b#c)"), "<p><a href=\"b#c\">a</a></p>");
}

#[test]
fn single_stars_stay_literal() {
    assert_eq!(render_html("*x*"), "<p>*x*</p>");
}

#[test]
fn doubled_star_before_space_stays_literal() {
    assert_eq!(render_html("** x**"), "<p>** x**</p>");
}

#[test]
fn unterminated_strong_stays_literal() {
    assert_eq!(render_html("**x"), "<p>**x</p>");
}

#[test]
fn paragraph_break_makes_siblings() {
    assert_eq!(render_html("a\n\nb"), "<p>a</p><p>b</p>");
}

#[test]
fn strong_never_spans_a_blank_line() {
    assert_eq!(render_html("**a\n\nb**"), "<p>**a</p><p>b**</p>");
}

#[test]
fn link_never_spans_a_blank_line() {
    assert_eq!(render_html("[a\n\nb](c)"), "<p>[a</p><p>b](c)</p>");
}

#[test]
fn single_newline_becomes_line_break() {
    assert_eq!(render_html("a\nb"), "<p>a<br>b</p>");
}

#[test]
fn trailing_line_break_is_suppressed() {
    assert_eq!(render_html("a\n"), "<p>a</p>");
}

#[test]
fn digits_render_literally() {
    assert_eq!(render_html("a1b23"), "<p>a1b23</p>");
}

#[test]
fn tab_renders_literally() {
    assert_eq!(render_html("a\tb"), "<p>a\tb</p>");
}

#[test]
fn structural_leftovers_render_literally() {
    assert_eq!(render_html("]().-_!\\"), "<p>]().-_!\\</p>");
}

#[test]
fn emoji_render_unchanged() {
    assert_eq!(render_html("🤡 **🎉**"), "<p>🤡 <strong>🎉</strong></p>");
}

#[test]
fn lone_opening_bracket() {
    assert_eq!(render_html("["), "<p>[</p>");
}

#[test]
fn lone_star() {
    assert_eq!(render_html("*"), "<p>*</p>");
}

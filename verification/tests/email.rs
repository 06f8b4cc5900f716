//! Mailings as email-client HTML: selectors, the cascade, and the shell.

use swift_design::css::{find_block_end, find_prelude_end, split_top_level, strip_comments};
use swift_design::dom::{attribute_value, class_list, implicitly_closes, parse_fragment, void_tag};
use swift_design::email_html::{
    email_document, export_mailing_emails, serialize, style_email, subject_and_preheader,
    width_text, EmailHtmlFile,
};
use swift_design::markup::{css_safe, decode_entities, escape_html, escape_xml};
use swift_design::model::{Colors, Email, EmailFormat, Fonts, Mailing, Theme};
use swift_design::selector::{parse_selector, selector_matches, specificity_of};
use swift_design::style::{
    all_rules, base_rules, merged_style, parse_rules, resolve_variables, theme_variables,
    BASE_RULE_COUNT,
};

fn theme() -> Theme {
    Theme {
        name: "launch".to_owned(),
        colors: Colors {
            background: "#f8fafc".to_owned(),
            text: "#0f172a".to_owned(),
            accent: "#0284c7".to_owned(),
            muted: "#64748b".to_owned(),
        },
        fonts: Fonts {
            heading: "Inter".to_owned(),
            body: "Inter".to_owned(),
            mono: "JetBrains Mono".to_owned(),
        },
    }
}

fn sample_mailing() -> Mailing {
    Mailing {
        title: "Swift Design launch email".to_owned(),
        theme: theme(),
        format: EmailFormat::Standard,
        emails: vec![
            Email {
                html: "<div class='e1'><h1>Six kinds, one chat</h1><p>Email is here.</p></div>"
                    .to_owned(),
                css: Some(".e1 { height: 100%; padding: 40px }".to_owned()),
                notes: Some(
                    "Subject: Six kinds, one chat. Preheader: Email joins the harness.".to_owned(),
                ),
            },
            Email {
                html: "<div class='e2'><div class='columns'><div class='column'><p>L</p></div>\
                       <div class='column'><p>R</p></div></div></div>"
                    .to_owned(),
                css: Some(
                    ".columns { width: 520px } .column { display: inline-block; width: 260px }"
                        .to_owned(),
                ),
                notes: Some("Subject: One week later. Preheader: What is new.".to_owned()),
            },
        ],
        outline: Vec::new(),
    }
}

fn width_px(style: &str) -> Option<u32> {
    width_text(style).and_then(|number| number.parse::<f32>().ok().map(|width| width as u32))
}

fn widths_of(styles: &[String]) -> Vec<Option<u32>> {
    styles.iter().map(|style| width_px(style)).collect()
}

fn inline(html: &str, css: &str) -> String {
    let variables = theme_variables(&theme());
    let (rules, _) = parse_rules(css, &variables);
    let rules = all_rules(rules, &theme());
    let tree = parse_fragment(html);
    let styles: Vec<String> = (0..tree.len())
        .map(|index| merged_style(&tree, index, &rules, &theme()))
        .collect();
    let widths = widths_of(&styles);
    serialize(&tree, &styles, &widths)
}

fn exported(mailing: &Mailing) -> Vec<EmailHtmlFile> {
    let widths: Vec<Vec<Option<u32>>> = mailing
        .emails
        .iter()
        .map(|email| widths_of(&style_email(email, &mailing.theme).styles))
        .collect();
    export_mailing_emails(mailing, None, &widths)
}

fn chars(text: &str) -> Vec<char> {
    text.chars().collect()
}

#[test]
fn simple_selectors_match_by_tag_class_and_id() {
    let output = inline(
        "<div class='a'><p id='x' class='b c'>Hi</p></div>",
        ".a { padding: 4px } p { color: #111111 } #x { font-size: 15px } .b.c { margin-top: 2px }",
    );
    assert!(output.contains("padding:4px"));
    assert!(output.contains("color:#111111"));
    assert!(output.contains("font-size:15px"));
    assert!(output.contains("margin-top:2px"));
}

#[test]
fn descendant_and_child_combinators_walk_the_ancestry() {
    let output = inline(
        "<div class='a'><div class='b'><p>Deep</p></div></div><p>Top</p>",
        ".a p { color: #222222 } .a > p { font-weight: 700 }",
    );
    assert!(output.contains("<p style=\"box-sizing:border-box;margin:0;color:#222222\">Deep"));
    assert!(!output.contains("font-weight:700"));
}

#[test]
fn nth_and_edge_children_match_by_position() {
    let output = inline(
        "<ul><li>1</li><li>2</li><li>3</li></ul>",
        "li:first-child { color: #111111 } li:last-child { color: #333333 } li:nth-child(2) { color: #222222 }",
    );
    assert!(output.contains("color:#111111\">1"));
    assert!(output.contains("color:#222222\">2"));
    assert!(output.contains("color:#333333\">3"));
}

#[test]
fn unsupported_selectors_fall_back_to_the_style_block() {
    let variables = theme_variables(&theme());
    let (rules, fallback) = parse_rules(
        ".cta:hover { opacity: 0.9 } li::marker { color: var(--accent) } @media (min-width: 300px) { .a { color: #111111 } } .kept { margin: 0 }",
        &variables,
    );
    assert_eq!(rules.len(), 1);
    assert!(fallback.contains(".cta:hover"));
    assert!(fallback.contains("li::marker"));
    assert!(fallback.contains("color: #0284c7"));
    assert!(fallback.contains("@media (min-width: 300px)"));
}

#[test]
fn specificity_orders_id_class_and_type_and_later_rules_win() {
    let output = inline(
        "<p id='x' class='a'>Hi</p>",
        "p { color: #111111 } .a { color: #222222 } #x { color: #333333 }",
    );
    assert!(output.contains("color:#333333"));
    let output = inline(
        "<p class='a'>Hi</p>",
        ".a { color: #111111 } .a { color: #222222 }",
    );
    assert!(output.contains("color:#222222"));
    assert!(!output.contains("#111111"));
}

#[test]
fn an_existing_style_attribute_wins_and_important_wins_over_it() {
    let output = inline(
        "<p class='a' style='color: #444444'>Hi</p>",
        ".a { color: #111111 } .a { font-size: 14px !important }",
    );
    assert!(output.contains("color:#444444"));
    assert!(output.contains("font-size:14px"));
}

#[test]
fn theme_variables_resolve_and_unknown_fallbacks_pass_through() {
    let variables = theme_variables(&theme());
    assert_eq!(
        resolve_variables("color: var(--accent)", &variables),
        "color: #0284c7"
    );
    assert_eq!(
        resolve_variables("color: var(--unknown, #123456)", &variables),
        "color: #123456"
    );
    assert_eq!(
        resolve_variables("color: var(--unknown)", &variables),
        "color: var(--unknown)"
    );
    assert!(resolve_variables("font: var(--body-font)", &variables).contains("'Inter'"));
}

#[test]
fn base_styles_materialize_without_the_canvas_machinery() {
    let output = inline(
        "<div class='e'><h2>T</h2><p>B</p><a href='https://x.example'>L</a></div>",
        "",
    );
    assert!(output.contains("letter-spacing:-0.02em"));
    assert!(output.contains("margin:0"));
    assert!(output.contains("color:#0284c7\""));
    assert!(!output.contains("--swift-design"));
    assert!(!output.contains("transform"));
    assert!(!output.contains("var("));
}

#[test]
fn the_root_takes_the_theme_ground_and_loses_its_height() {
    let output = inline(
        "<div class='e1'><p>Hi</p></div>",
        ".e1 { height: 100%; padding: 40px }",
    );
    assert!(output.contains("background:#f8fafc"));
    assert!(output.contains("color:#0f172a"));
    assert!(output.contains("padding:40px"));
    assert!(!output.contains("height:100%"));
}

#[test]
fn columns_compile_to_mso_ghost_tables() {
    let output = inline(
        "<div class='columns'><div class='column'><p>L</p></div><div class='column'><p>R</p></div></div>",
        ".columns { width: 520px } .column { display: inline-block; vertical-align: top; width: 260px }",
    );
    assert!(output.contains("<!--[if mso]><table role=\"presentation\""));
    assert!(output.contains("<!--[if mso]><td width=\"260\" valign=\"top\"><![endif]-->"));
    assert!(output.contains("<!--[if mso]></td><![endif]-->"));
    assert!(output.contains("<!--[if mso]></tr></table><![endif]-->"));
    assert!(output.contains("display:inline-block"));
}

#[test]
fn keyframes_and_animation_are_dropped() {
    let variables = theme_variables(&theme());
    let (rules, fallback) = parse_rules(
        "@keyframes e1-x { from { opacity: 0 } to { opacity: 1 } } .a { animation: e1-x 1s; transition: opacity 1s; color: #111111 }",
        &variables,
    );
    assert!(fallback.is_empty());
    assert_eq!(rules.len(), 1);
    assert_eq!(rules[0].declarations, "color: #111111");
}

#[test]
fn subjects_come_from_the_notes() {
    let (subject, preheader) = subject_and_preheader(Some(
        "Subject: Six kinds, one chat. Preheader: Email joins the harness.",
    ));
    assert_eq!(subject.as_deref(), Some("Six kinds, one chat."));
    assert_eq!(preheader.as_deref(), Some("Email joins the harness."));
    assert_eq!(subject_and_preheader(None), (None, None));
    let (subject, preheader) = subject_and_preheader(Some("Just a remark."));
    assert_eq!(subject, None);
    assert_eq!(preheader, None);
}

#[test]
fn the_preheader_hides_at_the_body_start() {
    let mailing = sample_mailing();
    let files = exported(&mailing);
    assert_eq!(files.len(), 2);
    let first = &files[0].html;
    assert!(first.contains(
        "<div style=\"display:none;max-height:0;overflow:hidden;mso-hide:all;\">Email joins the harness.</div>"
    ));
    assert!(first.contains("<title>Six kinds, one chat.</title>"));
}

#[test]
fn the_export_wraps_every_email_in_the_table_shell() {
    let mailing = sample_mailing();
    for file in exported(&mailing) {
        assert!(file.html.starts_with("<!DOCTYPE html>"));
        assert!(file
            .html
            .contains("<!--[if mso]><table role=\"presentation\" width=\"600\""));
        assert!(file.html.contains("width:600px;max-width:100%"));
        assert!(file.html.contains("font-size:16px;line-height:1.3"));
        assert!(file.html.contains("@media (max-width:620px)"));
        assert!(!file.html.contains("var("));
        assert!(!file.html.contains("display:flex"));
        assert!(!file.html.contains("display:grid"));
        assert!(file.subject.is_some());
    }
    // The second email exercises the columns compiler.
    assert!(exported(&mailing)[1]
        .html
        .contains("<!--[if mso]><td width=\"260\""));
}

#[test]
fn optional_end_tags_nest_like_the_markup_checker() {
    let output = inline("<ul><li>a<li>b</ul><p>x<p>y", "li { color: #111111 }");
    assert_eq!(output.matches("</li>").count(), 2);
    assert_eq!(output.matches("</p>").count(), 2);
    assert!(!output.contains("<li style=\"box-sizing:border-box;color:#111111\">a<li"));
}

#[test]
fn svg_subtrees_pass_through_untouched() {
    let output = inline(
        "<div class='a'><svg viewBox='0 0 10 10'><rect width='10' height='10'/></svg></div>",
        ".a { padding: 8px }",
    );
    assert!(output.contains("<rect width='10' height='10'/>"));
    assert!(output.contains("</svg>"));
}

#[test]
fn a_child_combinator_may_stand_without_spaces() {
    for css in [".a>p { color: #111111 }", ".a > p { color: #111111 }"] {
        let output = inline("<div class='a'><p>Hi</p></div>", css);
        assert!(output.contains("color:#111111\">Hi"));
    }
}

#[test]
fn every_variable_of_a_value_resolves() {
    let variables = theme_variables(&theme());
    assert_eq!(
        resolve_variables("var(--text) var(--accent) var(--none)", &variables),
        "#0f172a #0284c7 var(--none)"
    );
    assert_eq!(resolve_variables("var(", &variables), "var(");
    assert_eq!(resolve_variables("no variables", &variables), "no variables");
}

#[test]
fn pseudo_classes_that_no_style_can_hold_have_no_selector() {
    for text in ["a:hover", "p::before", "a[href]", "p + p", "", "p:nth-child(x)"] {
        assert!(parse_selector(&chars(text)).is_none(), "{text}");
    }
    let selector = parse_selector(&chars("#x .a p")).unwrap();
    let found = specificity_of(&selector);
    assert_eq!((found.ids, found.classes, found.tags), (1, 1, 1));
}

#[test]
fn a_selector_never_matches_the_fragment_itself() {
    let tree = parse_fragment("<p class='a'>x</p>");
    let selector = parse_selector(&chars(".a")).unwrap();
    assert!(!selector_matches(&tree, 0, &selector));
    assert!(selector_matches(&tree, 1, &selector));
}

#[test]
fn the_base_rules_come_before_the_author_rules() {
    let base = base_rules(&theme());
    assert_eq!(base.len(), BASE_RULE_COUNT);
    let (author, _) = parse_rules(".a { margin: 0 } .b { margin: 1px }", &theme_variables(&theme()));
    let rules = all_rules(author, &theme());
    assert_eq!(rules.len(), BASE_RULE_COUNT + 2);
    for pair in rules.windows(2) {
        assert!(pair[0].order <= pair[1].order);
    }
    assert!(rules[BASE_RULE_COUNT].order >= BASE_RULE_COUNT);
}

#[test]
fn a_comma_separates_selectors_of_one_rule() {
    let (rules, fallback) = parse_rules("h1, .a, p:hover { margin: 2px }", &theme_variables(&theme()));
    assert_eq!(rules.len(), 2);
    assert!(fallback.contains("p:hover"));
    assert!(!fallback.contains("h1"));
}

#[test]
fn a_width_is_read_only_in_px() {
    assert_eq!(width_text("color:red;width: 260px"), Some("260".to_owned()));
    assert_eq!(width_text("width :12.5px"), Some("12.5".to_owned()));
    assert_eq!(width_text("width:50%"), None);
    assert_eq!(width_text("max-width:260px"), None);
    assert_eq!(width_px("width:12.9px"), Some(12));
    assert_eq!(width_px("width:wide px"), None);
}

#[test]
fn an_email_without_a_subject_takes_the_mailing_title() {
    let mut mailing = sample_mailing();
    mailing.emails.truncate(1);
    mailing.emails[0].notes = None;
    let files = exported(&mailing);
    assert_eq!(files[0].subject, None);
    assert_eq!(files[0].preheader, None);
    assert!(files[0].html.contains("<title>Swift Design launch email</title>"));
    assert!(!files[0].html.contains("mso-hide:all"));
}

#[test]
fn the_font_link_stands_in_the_head() {
    let mailing = sample_mailing();
    let styled = style_email(&mailing.emails[0], &mailing.theme);
    let widths = widths_of(&styled.styles);
    let link = "<link rel=\"stylesheet\" href=\"https://fonts.googleapis.com/css2\">";
    let with = email_document(
        &mailing.emails[0],
        &mailing.theme,
        &mailing.title,
        Some(link),
        &styled,
        &widths,
    );
    assert!(with.html.contains(link));
    let without = email_document(
        &mailing.emails[0],
        &mailing.theme,
        &mailing.title,
        None,
        &styled,
        &widths,
    );
    assert!(!without.html.contains("fonts.googleapis.com"));
}

#[test]
fn css_splits_only_outside_quotes_and_brackets() {
    let pieces: Vec<String> = split_top_level(&chars("a:b;c:url(x;y);d:'e;f'"), ';')
        .into_iter()
        .map(|piece| piece.into_iter().collect())
        .collect();
    assert_eq!(pieces, ["a:b", "c:url(x;y)", "d:'e;f'"]);
    assert_eq!(pieces.join(";"), "a:b;c:url(x;y);d:'e;f'");
}

#[test]
fn css_comments_and_block_ends_are_found() {
    let plain: String = strip_comments(&chars("a/*x*/b/* open")).into_iter().collect();
    assert_eq!(plain, "ab");
    assert_eq!(find_prelude_end(&chars("@import x; p{}"), 0), Some(9));
    assert_eq!(find_prelude_end(&chars("p {}"), 0), Some(2));
    assert_eq!(find_prelude_end(&chars("no end"), 0), None);
    assert_eq!(find_block_end(&chars("a{b}c}d"), 0), Some(5));
}

#[test]
fn void_tags_and_optional_ends_are_known() {
    assert!(void_tag("br"));
    assert!(void_tag("img"));
    assert!(!void_tag("p"));
    assert!(implicitly_closes("li", "li"));
    assert!(!implicitly_closes("div", "p"));
}

#[test]
fn attributes_and_classes_are_read_from_an_element() {
    let tree = parse_fragment("<p class='a  b' hidden data-x=y>t</p>");
    assert_eq!(attribute_value(&tree[1], "data-x"), Some("y".to_owned()));
    assert_eq!(attribute_value(&tree[1], "absent"), None);
    let classes: Vec<String> = class_list(&tree[1])
        .into_iter()
        .map(|class| class.into_iter().collect())
        .collect();
    assert_eq!(classes, ["a", "b"]);
}

#[test]
fn escaped_text_holds_no_markup_and_decodes_back() {
    let text = "a < b & \"c\" > 'd'";
    for escaped in [escape_html(text), escape_xml(text)] {
        assert!(!escaped.contains('<'));
        assert!(!escaped.contains('>'));
        assert!(!escaped.contains('"'));
    }
    let back: String = decode_entities(&chars(&escape_html(text))).into_iter().collect();
    assert_eq!(back, text);
    let decoded: String = decode_entities(&chars("&#65;&#x42;&nope;")).into_iter().collect();
    assert_eq!(decoded, "AB&nope;");
    assert!(!css_safe("a</style>\"").contains('<'));
}

#[test]
fn attribute_and_sibling_rules_stay_in_the_style_block() {
    let (rules, fallback) = parse_rules(
        "a[href] { color: #111111 } h1+p { margin: 4px } h1~p { margin: 5px } .k { margin: 0 }",
        &theme_variables(&theme()),
    );
    assert_eq!(rules.len(), 1);
    assert!(fallback.contains("a[href]"));
    assert!(fallback.contains("h1+p"));
    assert!(fallback.contains("h1~p"));
}

#[test]
fn conditional_rules_keep_no_animation() {
    let variables = theme_variables(&theme());
    let (rules, fallback) = parse_rules(
        "@media print { .a { animation: x 1s; color: red } @keyframes y { to { top: 0 } } .b { Transition : top 1s } }",
        &variables,
    );
    assert!(rules.is_empty());
    assert_eq!(fallback, "@media print{ .a { color: red } .b {} }\n");
    let (_, fallback) = parse_rules(
        ".card { color: red; transition: all 1s; &:hover { animation-name: x; top: 1px; } }",
        &variables,
    );
    assert_eq!(fallback, ".card{ color: red; &:hover { top: 1px; } }\n");
    let (_, fallback) = parse_rules(
        "@font-face { font-family: x; src: url(data:font/woff2;base64,AA) }",
        &variables,
    );
    assert_eq!(
        fallback,
        "@font-face{ font-family: x; src: url(data:font/woff2;base64,AA) }\n"
    );
    let (_, fallback) = parse_rules(
        "@media print { .a { content: \"animation: x;}\" } transition-card { top: 0 } }",
        &variables,
    );
    assert_eq!(
        fallback,
        "@media print{ .a { content: \"animation: x;}\" } transition-card { top: 0 } }\n"
    );
}

#[test]
fn a_style_attribute_keeps_no_animation() {
    let tree = parse_fragment(
        "<div><p style='animation: x 1s; color: red; TRANSITION-delay: 1s'>a</p></div>",
    );
    let merged = merged_style(&tree, 2, &Vec::new(), &theme());
    assert_eq!(merged, "box-sizing:border-box;color:red");
}

#[test]
fn a_self_closing_svg_runs_to_the_next_closing_tag() {
    let tree = parse_fragment("<div><svg/><p>a</p></svg><p>b</p></div>");
    let tags: Vec<&str> = tree.iter().map(|element| element.tag.as_str()).collect();
    assert_eq!(tags, ["", "div", "svg", "p"]);
    let styles = vec![String::new(); tree.len()];
    let widths = vec![None; tree.len()];
    assert_eq!(
        serialize(&tree, &styles, &widths),
        "<div><svg><p>a</p></svg><p>b</p></div>"
    );
    let nested = parse_fragment("<svg><svg/></svg><p>a</p></svg><p>b</p>");
    let tags: Vec<&str> = nested.iter().map(|element| element.tag.as_str()).collect();
    assert_eq!(tags, ["", "svg", "p"]);
}

#[test]
fn a_style_attribute_has_its_variables_resolved() {
    let tree = parse_fragment("<div><p style='color: var(--accent); top: var(--x, 1px)'>a</p></div>");
    let merged = merged_style(&tree, 2, &Vec::new(), &theme());
    assert_eq!(merged, "box-sizing:border-box;color:#0284c7;top:1px");
}
